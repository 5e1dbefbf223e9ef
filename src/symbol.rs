use vstd::prelude::*;
use crate::arith::{Arith, Var};
use crate::ast::AstNode;
use crate::lexer::TokenType;
use crate::ast_to_arith::{leaf_of, compile_arith};
use crate::parse_rules::{leaf_word_node, param_leaf, leaf_sum};
use crate::names::names_view;
use crate::num::{num_text, push_num};
use crate::text::{chars_of_string, string_of};

verus! {

/// What a symbol is: its glyph, its parameter expressions and its rule set.
pub struct SymbolModel {
    pub glyph: char,
    pub params: Seq<Arith>,
    pub rule_set: Seq<char>,
}

/// A parametric symbol. `var_names` caches the names of the free variables
/// of the parameters once they have been computed.
pub struct Symbol {
    pub sym: char,
    pub var_names: Vec<String>,
    pub params: Vec<Box<Arith>>,
    pub rule_set: String,
}

impl View for Symbol {
    type V = SymbolModel;

    open spec fn view(&self) -> SymbolModel {
        SymbolModel {
            glyph: self.sym,
            params: self.params@.map_values(|p: Box<Arith>| *p),
            rule_set: self.rule_set@,
        }
    }
}

/// Values of the parameters.
pub open spec fn values_of(m: SymbolModel) -> Seq<i64> {
    m.params.map_values(|a: Arith| a.value() as i64)
}

/// Two symbols are alike when glyph and number of parameters agree; the
/// values do not count.
pub open spec fn alike(a: SymbolModel, b: SymbolModel) -> bool {
    a.glyph == b.glyph && a.params.len() == b.params.len()
}

/// The symbol is the bare glyph `c`.
pub open spec fn is_glyph(m: SymbolModel, c: char) -> bool {
    m.glyph == c && m.params.len() == 0
}

/// Free-variable names of a list of parameters, parameter by parameter.
pub open spec fn params_vars(ps: Seq<Arith>) -> Seq<Seq<char>>
    decreases ps.len(),
{
    if ps.len() == 0 {
        Seq::empty()
    } else {
        params_vars(ps.drop_last()) + ps.last().free_vars()
    }
}

pub open spec fn symbol_vars(m: SymbolModel) -> Seq<Seq<char>> {
    params_vars(m.params)
}

/// The symbol with every variable named `name` set to `val`.
pub open spec fn symbol_bound(m: SymbolModel, name: Seq<char>, val: i64) -> SymbolModel {
    SymbolModel { params: m.params.map_values(|a: Arith| a.bound(name, val)), ..m }
}

/// Values separated by commas.
pub open spec fn values_text(vs: Seq<i64>) -> Seq<char>
    decreases vs.len(),
{
    if vs.len() == 0 {
        Seq::empty()
    } else if vs.len() == 1 {
        num_text(vs[0] as int)
    } else {
        values_text(vs.drop_last()) + seq![','] + num_text(vs.last() as int)
    }
}

/// Text of a symbol: the glyph alone, or the glyph and its values in parentheses.
pub open spec fn symbol_text(m: SymbolModel) -> Seq<char> {
    if m.params.len() == 0 {
        seq![m.glyph]
    } else {
        seq![m.glyph, '('] + values_text(values_of(m)) + seq![')']
    }
}

pub fn copy_params(ps: &Vec<Box<Arith>>) -> (r: Vec<Box<Arith>>)
    ensures
        r@.map_values(|p: Box<Arith>| *p) == ps@.map_values(|p: Box<Arith>| *p),
{
    let mut r: Vec<Box<Arith>> = Vec::new();
    let mut i: usize = 0;
    while i < ps.len()
        invariant
            i <= ps@.len(),
            r@.len() == i,
            forall|k: int| 0 <= k < i ==> *r@[k] == *ps@[k],
        decreases ps.len() - i,
    {
        r.push(Box::new(ps[i].copy()));
        i += 1;
    }
    assert(r@.map_values(|p: Box<Arith>| *p) =~= ps@.map_values(|p: Box<Arith>| *p));
    r
}

pub fn copy_names(v: &Vec<String>) -> (r: Vec<String>)
    ensures
        r@ == v@,
{
    let mut r: Vec<String> = Vec::new();
    let mut i: usize = 0;
    while i < v.len()
        invariant
            i <= v@.len(),
            r@ == v@.take(i as int),
        decreases v.len() - i,
    {
        r.push(v[i].clone());
        i += 1;
        assert(r@ =~= v@.take(i as int));
    }
    assert(v@.take(i as int) =~= v@);
    r
}

impl Symbol {
    pub fn new(sym: char, params: Vec<Box<Arith>>, rule_set: String) -> (r: Symbol)
        ensures
            r.sym == sym,
            r.params == params,
            r.rule_set == rule_set,
            r.var_names@.len() == 0,
    {
        Symbol { sym, params, var_names: Vec::new(), rule_set }
    }

    /// A symbol whose parameters are the given literal values.
    pub fn new_with_values(sym: char, params: Vec<i64>, rule_set: String) -> (r: Symbol)
        ensures
            r@.glyph == sym,
            r@.rule_set == rule_set@,
            values_of(r@) == params@,
            symbol_vars(r@) == Seq::<Seq<char>>::empty(),
    {
        let mut ps: Vec<Box<Arith>> = Vec::new();
        let mut i: usize = 0;
        while i < params.len()
            invariant
                i <= params@.len(),
                ps@.len() == i,
                forall|k: int| 0 <= k < i ==> *ps@[k] == Arith::Var(Var { name: None, value: params@[k] }),
            decreases params.len() - i,
        {
            ps.push(Var::new_value(params[i]));
            i += 1;
        }
        let r = Symbol::new(sym, ps, rule_set);
        proof {
            assert(values_of(r@) =~= params@);
            lemma_literal_params_vars(r@.params);
        }
        r
    }

    /// A copy with the same glyph, parameters and rule set.
    pub fn copy(&self) -> (r: Symbol)
        ensures
            r@ == self@,
            r.var_names@ == self.var_names@,
    {
        Symbol {
            sym: self.sym,
            var_names: copy_names(&self.var_names),
            params: copy_params(&self.params),
            rule_set: self.rule_set.clone(),
        }
    }

    /// Glyph and number of parameters agree.
    pub fn alike(&self, other: &Symbol) -> (r: bool)
        ensures
            r == alike(self@, other@),
    {
        self.sym == other.sym && self.params.len() == other.params.len()
    }

    /// The symbol is the bare glyph `c`.
    pub fn is_glyph(&self, c: char) -> (r: bool)
        ensures
            r == is_glyph(self@, c),
    {
        self.sym == c && self.params.len() == 0
    }

    /// Whether this symbol stands for the alias `alias` of an included rule
    /// set: a bare glyph of the root rule set spelled as the alias.
    pub fn eq_alias(&self, alias: &String) -> (r: bool)
        ensures
            r == (self@.params.len() == 0 && self@.rule_set == seq!['r', 'o', 'o', 't']
                && alias@ == seq![self@.glyph]),
    {
        if self.params.len() != 0 {
            return false;
        }
        let rs = chars_of_string(&self.rule_set);
        let root = rs.len() == 4 && rs[0] == 'r' && rs[1] == 'o' && rs[2] == 'o' && rs[3] == 't';
        proof {
            if root {
                assert(rs@ =~= seq!['r', 'o', 'o', 't']);
            } else if rs@ == seq!['r', 'o', 'o', 't'] {
                assert(rs@[0] == 'r' && rs@[1] == 'o' && rs@[2] == 'o' && rs@[3] == 't');
            }
        }
        if !root {
            return false;
        }
        let a = chars_of_string(alias);
        proof {
            if a@ == seq![self.sym] {
                assert(a@[0] == self.sym);
            }
        }
        if a.len() == 1 && a[0] == self.sym {
            assert(a@ =~= seq![self.sym]);
            true
        } else {
            false
        }
    }

    /// Names of the free variables of the parameters, parameter by parameter.
    pub fn free_var_names(&self) -> (r: Vec<String>)
        ensures
            names_view(r@) == symbol_vars(self@),
    {
        let mut r: Vec<String> = Vec::new();
        let mut i: usize = 0;
        while i < self.params.len()
            invariant
                i <= self.params@.len(),
                names_view(r@) == params_vars(self@.params.take(i as int)),
            decreases self.params.len() - i,
        {
            let vs = self.params[i].vars();
            let ghost before = r@;
            let mut j: usize = 0;
            while j < vs.len()
                invariant
                    j <= vs@.len(),
                    r@.len() == before.len() + j,
                    forall|k: int| 0 <= k < before.len() ==> r@[k] == before[k],
                    forall|k: int| 0 <= k < j ==> r@[before.len() + k] == vs@[k],
                decreases vs.len() - j,
            {
                r.push(vs[j].clone());
                j += 1;
            }
            proof {
                assert(names_view(r@) =~= names_view(before) + names_view(vs@));
                assert(self@.params.take(i + 1).drop_last() =~= self@.params.take(i as int));
                assert(self@.params.take(i + 1).last() == *self.params@[i as int]);
            }
            i += 1;
        }
        assert(self@.params.take(i as int) =~= self@.params);
        r
    }

    /// Fills the cache of free-variable names unless it is already filled.
    pub fn compute_var_names(&mut self)
        ensures
            final(self)@ == old(self)@,
            old(self).var_names@.len() > 0 ==> final(self).var_names@ == old(self).var_names@,
            old(self).var_names@.len() == 0 ==> names_view(final(self).var_names@) == symbol_vars(old(self)@),
    {
        if self.var_names.len() > 0 {
            return;
        }
        self.var_names = self.free_var_names();
    }

    /// Text of the symbol: the glyph, then the parameter values in parentheses.
    pub fn to_string(&self) -> (r: String)
        ensures
            r@ == symbol_text(self@),
    {
        let mut out: Vec<char> = Vec::new();
        self.push_text(&mut out);
        string_of(&out)
    }

    pub fn push_text(&self, out: &mut Vec<char>)
        ensures
            final(out)@ == old(out)@ + symbol_text(self@),
    {
        let ghost start = out@;
        out.push(self.sym);
        if self.params.len() > 0 {
            out.push('(');
            let ghost open_at = out@;
            let mut i: usize = 0;
            while i < self.params.len()
                invariant
                    0 < self.params@.len(),
                    i <= self.params@.len(),
                    out@ == open_at + values_text(values_of(self@).take(i as int)),
                decreases self.params.len() - i,
            {
                let v = self.params[i].eval();
                let ghost vs = values_of(self@).take(i + 1);
                assert(vs.drop_last() =~= values_of(self@).take(i as int));
                assert(vs.last() == v);
                if i > 0 {
                    out.push(',');
                }
                push_num(out, v);
                proof {
                    if i == 0 {
                        assert(out@ =~= open_at + values_text(vs));
                    } else {
                        assert(out@ =~= open_at + values_text(vs));
                    }
                }
                i += 1;
            }
            out.push(')');
            assert(values_of(self@).take(i as int) =~= values_of(self@));
            assert(out@ =~= start + symbol_text(self@));
        } else {
            assert(out@ =~= start + symbol_text(self@));
        }
    }

    /// Sets every variable named `var` in the parameters to `val`; fails when
    /// no parameter has such a variable.
    pub fn set(&mut self, var: &String, val: i64) -> (r: Result<(), ()>)
        ensures
            final(self)@ == symbol_bound(old(self)@, var@, val),
            final(self).var_names == old(self).var_names,
            r is Ok <==> exists|k: int| 0 <= k < old(self)@.params.len()
                && old(self)@.params[k].free_vars().contains(var@),
    {
        let mut fail = true;
        let mut i: usize = 0;
        let ghost old_params = self@.params;
        while i < self.params.len()
            invariant
                i <= self.params@.len(),
                self.params@.len() == old_params.len(),
                self.sym == old(self).sym,
                self.rule_set == old(self).rule_set,
                self.var_names == old(self).var_names,
                old_params == old(self)@.params,
                forall|k: int| 0 <= k < i ==> *self.params@[k] == old_params[k].bound(var@, val),
                forall|k: int| i <= k < self.params@.len() ==> *self.params@[k] == old_params[k],
                fail <==> forall|k: int| 0 <= k < i ==> !old_params[k].free_vars().contains(var@),
            decreases self.params.len() - i,
        {
            let mut p = self.params.remove(i);
            let r = p.set(var, val);
            self.params.insert(i, p);
            if r.is_ok() {
                fail = false;
            }
            i += 1;
        }
        assert(self@.params =~= old_params.map_values(|a: Arith| a.bound(var@, val)));
        if fail {
            Err(())
        } else {
            Ok(())
        }
    }

    /// Sets parameter `i` when it has exactly one free variable: that
    /// variable takes the value `val`. Fails otherwise, changing nothing.
    pub fn set_i(&mut self, i: usize, val: i64) -> (r: Result<(), ()>)
        ensures
            r is Ok <==> (i < old(self)@.params.len() && old(self)@.params[i as int].free_vars().len() == 1),
            r is Ok ==> final(self)@ == (SymbolModel {
                params: old(self)@.params.update(i as int,
                    old(self)@.params[i as int].bound(old(self)@.params[i as int].free_vars()[0], val)),
                ..old(self)@
            }),
            r is Err ==> final(self)@ == old(self)@,
            final(self).var_names == old(self).var_names,
    {
        if i >= self.params.len() {
            return Err(());
        }
        let vars = self.params[i].vars();
        if vars.len() != 1 {
            return Err(());
        }
        let ghost before = self.params@;
        let mut p = self.params.remove(i);
        proof {
            assert(names_view(vars@)[0] == vars@[0]@);
            assert(p.free_vars().contains(vars@[0]@)) by {
                assert(p.free_vars()[0] == vars@[0]@);
            }
        }
        let _ = p.set(&vars[0], val);
        self.params.insert(i, p);
        assert(self.params@ =~= before.update(i as int, p));
        assert(self@.params =~= old(self)@.params.update(i as int,
            old(self)@.params[i as int].bound(old(self)@.params[i as int].free_vars()[0], val)));
        Ok(())
    }

    /// Sets the parameters one by one from `vec`, as `set_i` does, when
    /// `vec` is shorter than the parameter list; otherwise changes nothing.
    pub fn set_vec(&mut self, vec: &Vec<i64>)
        ensures
            vec@.len() >= old(self)@.params.len() ==> final(self)@ == old(self)@,
            final(self)@.glyph == old(self)@.glyph,
            final(self)@.rule_set == old(self)@.rule_set,
            final(self)@.params.len() == old(self)@.params.len(),
    {
        if vec.len() >= self.params.len() {
            return;
        }
        let mut i: usize = 0;
        while i < vec.len()
            invariant
                i <= vec@.len(),
                self@.glyph == old(self)@.glyph,
                self@.rule_set == old(self)@.rule_set,
                self@.params.len() == old(self)@.params.len(),
            decreases vec.len() - i,
        {
            let _ = self.set_i(i, vec[i]);
            i += 1;
        }
    }

    /// Value of the first parameter whose only free variable is `var`.
    pub fn get(&self, var: &String) -> (r: Result<i64, ()>)
        ensures
            match r {
                Ok(v) => exists|k: int| 0 <= k < self@.params.len() && self@.params[k].free_vars() == seq![var@]
                    && v == self@.params[k].value(),
                Err(_) => forall|k: int| 0 <= k < self@.params.len() ==> self@.params[k].free_vars() != seq![var@],
            },
    {
        let mut k: usize = 0;
        while k < self.params.len()
            invariant
                k <= self@.params.len(),
                forall|j: int| 0 <= j < k ==> self@.params[j].free_vars() != seq![var@],
            decreases self.params.len() - k,
        {
            let vars = self.params[k].vars();
            assert(self@.params[k as int] == *self.params@[k as int]);
            if vars.len() == 1 && vars[0] == *var {
                assert(names_view(vars@) =~= seq![var@]);
                return Ok(self.params[k].eval());
            }
            proof {
                assert(self@.params[k as int].free_vars() == names_view(vars@));
                if vars@.len() == 1 {
                    assert(names_view(vars@)[0] == vars@[0]@);
                    assert(vars@[0]@ != var@);
                    assert(seq![var@][0] == var@);
                } else {
                    assert(names_view(vars@).len() != seq![var@].len());
                }
            }
            k += 1;
        }
        Err(())
    }

    /// Value of parameter `i`.
    pub fn get_i(&self, i: usize) -> (r: Result<i64, ()>)
        ensures
            i < self@.params.len() ==> r == Ok::<i64, ()>(values_of(self@)[i as int]),
            i >= self@.params.len() ==> r is Err,
    {
        if i >= self.params.len() {
            Err(())
        } else {
            Ok(self.params[i].eval())
        }
    }

    /// Values of the parameters.
    pub fn get_vec(&self) -> (r: Vec<i64>)
        ensures
            r@ == values_of(self@),
    {
        let mut r: Vec<i64> = Vec::new();
        let mut i: usize = 0;
        while i < self.params.len()
            invariant
                i <= self.params@.len(),
                r@ == values_of(self@).take(i as int),
            decreases self.params.len() - i,
        {
            r.push(self.params[i].eval());
            i += 1;
            assert(r@ =~= values_of(self@).take(i as int));
        }
        assert(values_of(self@).take(i as int) =~= values_of(self@));
        r
    }

    pub fn n_param(&self) -> (r: usize)
        ensures
            r == self@.params.len(),
    {
        self.params.len()
    }
}

/// Compiled parameters of the children from the first to the `k`-th
/// (exclusive), children without an expression passed over.
pub open spec fn compile_params(exp: AstNode, k: int) -> Option<Seq<Arith>>
    decreases k,
{
    if k <= 1 {
        Some(Seq::empty())
    } else {
        match compile_params(exp, k - 1) {
            None => None,
            Some(ps) => {
                let c = exp.children@[k - 1];
                if c.children@.len() == 0 {
                    Some(ps)
                } else {
                    match compile_arith(*c.children@[0]) {
                        None => None,
                        Some(a) => Some(ps.push(a)),
                    }
                }
            },
        }
    }
}

/// The symbol of a parametric-word or predecessor node: the first
/// character of its first child, the compiled parameters of the others,
/// and no rule set.
pub open spec fn compile_symbol(exp: AstNode) -> Option<SymbolModel> {
    if exp.node_type != TokenType::ParamWord && exp.node_type != TokenType::Pred {
        None
    } else if exp.children@.len() == 0 || exp.children@[0].data@.len() == 0 {
        None
    } else {
        match compile_params(exp, exp.children@.len() as int) {
            None => None,
            Some(ps) => Some(SymbolModel { glyph: exp.children@[0].data@[0], params: ps, rule_set: Seq::empty() }),
        }
    }
}

proof fn lemma_compile_params_none_stays(exp: AstNode, m: int, k: int)
    requires
        compile_params(exp, m) is None,
        m <= k,
    ensures
        compile_params(exp, k) is None,
    decreases k - m,
{
    if m < k {
        lemma_compile_params_none_stays(exp, m, k - 1);
    }
}

impl Symbol {
    /// Builds a symbol from a parametric-word node: the glyph is the first
    /// character of the first child, each further child holds a parameter
    /// expression. The rule set is left empty.
    pub fn from_ast(exp: &AstNode) -> (r: Result<Symbol, &'static str>)
        ensures
            match r {
                Ok(sym) => compile_symbol(*exp) == Some(sym@) && sym.var_names@.len() == 0,
                Err(_) => compile_symbol(*exp) is None,
            },
            leaf_word_node(*exp) ==> r is Ok && r->Ok_0@.glyph == exp.children@[0].data@[0]
                && r->Ok_0@.params.len() == exp.children@.len() - 1
                && forall|k: int| 0 <= k < r->Ok_0@.params.len()
                    ==> (#[trigger] r->Ok_0@.params[k]) == leaf_of(param_leaf(*exp, k + 1)),
    {
        if exp.node_type != TokenType::ParamWord && exp.node_type != TokenType::Pred {
            return Err("Invalid node type, expected ParamWord|Pred.");
        }
        if exp.children.len() == 0 {
            return Err("No data for ast conversion to Symbol");
        }
        let glyph_text = chars_of_string(&exp.children[0].data);
        if glyph_text.len() == 0 {
            return Err("No glyph for ast conversion to Symbol");
        }
        let mut params: Vec<Box<Arith>> = Vec::new();
        let mut i: usize = 1;
        while i < exp.children.len()
            invariant
                1 <= i <= exp.children@.len(),
                compile_params(*exp, i as int) == Some(params@.map_values(|p: Box<Arith>| *p)),
                leaf_word_node(*exp) ==> params@.len() == i - 1
                    && forall|k: int| 0 <= k < i - 1 ==> *(#[trigger] params@[k]) == leaf_of(param_leaf(*exp, k + 1)),
            decreases exp.children.len() - i,
        {
            let c = &exp.children[i];
            let ghost before = params@;
            if c.children.len() > 0 {
                proof {
                    if leaf_word_node(*exp) {
                        assert(exp.children@[i as int].children@.len() == 1);
                        assert(leaf_sum(*c.children@[0], param_leaf(*exp, i as int)@));
                    }
                }
                let a = match Arith::create_from(&c.children[0]) {
                    Ok(a) => a,
                    Err(e) => {
                        proof {
                            lemma_compile_params_none_stays(*exp, i + 1, exp.children@.len() as int);
                        }
                        return Err(e);
                    },
                };
                params.push(a);
                assert(params@.map_values(|p: Box<Arith>| *p) =~= before.map_values(|p: Box<Arith>| *p).push(*a));
            } else {
                proof {
                    if leaf_word_node(*exp) {
                        assert(exp.children@[i as int].children@.len() == 1);
                    }
                }
            }
            i += 1;
        }
        let r = Symbol { sym: glyph_text[0], var_names: Vec::new(), params, rule_set: String::new() };
        proof {
            assert(r@.rule_set =~= Seq::<char>::empty());
            if leaf_word_node(*exp) {
                assert forall|k: int| 0 <= k < r@.params.len() implies (#[trigger] r@.params[k]) == leaf_of(param_leaf(*exp, k + 1)) by {
                    assert(r@.params[k] == *r.params@[k]);
                }
            }
        }
        Ok(r)
    }
}

/// Symbols are equal when glyph and number of parameters agree: a pattern
/// symbol with variables equals any instance with values.
impl PartialEq for Symbol {
    fn eq(&self, other: &Symbol) -> (r: bool)
        ensures
            r == alike(self@, other@),
    {
        self.sym == other.sym && self.params.len() == other.params.len()
    }
}

impl vstd::std_specs::cmp::PartialEqSpecImpl for Symbol {
    open spec fn obeys_eq_spec() -> bool {
        true
    }

    open spec fn eq_spec(&self, other: &Symbol) -> bool {
        alike(self@, other@)
    }
}

/// A sequence joined to another holds what either holds.
pub proof fn lemma_concat_contains<A>(a: Seq<A>, b: Seq<A>, x: A)
    ensures
        (a + b).contains(x) <==> (a.contains(x) || b.contains(x)),
{
    if (a + b).contains(x) {
        let k = choose|k: int| 0 <= k < (a + b).len() && (a + b)[k] == x;
        if k < a.len() {
            assert(a[k] == x);
        } else {
            assert(b[k - a.len()] == x);
        }
    }
    if a.contains(x) {
        let k = choose|k: int| 0 <= k < a.len() && a[k] == x;
        assert((a + b)[k] == x);
    }
    if b.contains(x) {
        let k = choose|k: int| 0 <= k < b.len() && b[k] == x;
        assert((a + b)[a.len() + k] == x);
    }
}

/// The names of the parameters hold `x` when one parameter has it.
pub proof fn lemma_params_vars_contains(ps: Seq<Arith>, x: Seq<char>)
    ensures
        params_vars(ps).contains(x) <==> exists|j: int| 0 <= j < ps.len() && (#[trigger] ps[j]).free_vars().contains(x),
    decreases ps.len(),
{
    if ps.len() > 0 {
        lemma_params_vars_contains(ps.drop_last(), x);
        lemma_concat_contains(params_vars(ps.drop_last()), ps.last().free_vars(), x);
        if exists|j: int| 0 <= j < ps.len() && (#[trigger] ps[j]).free_vars().contains(x) {
            let j = choose|j: int| 0 <= j < ps.len() && (#[trigger] ps[j]).free_vars().contains(x);
            if j < ps.len() - 1 {
                assert(ps.drop_last()[j] == ps[j]);
            }
        }
        if exists|j: int| 0 <= j < ps.len() - 1 && (#[trigger] ps.drop_last()[j]).free_vars().contains(x) {
            let j = choose|j: int| 0 <= j < ps.len() - 1 && (#[trigger] ps.drop_last()[j]).free_vars().contains(x);
            assert(ps[j] == ps.drop_last()[j]);
        }
    }
}

proof fn lemma_literal_params_vars(ps: Seq<Arith>)
    requires
        forall|k: int| 0 <= k < ps.len() ==> ps[k] is Var && ps[k]->Var_0.name is None,
    ensures
        params_vars(ps) == Seq::<Seq<char>>::empty(),
    decreases ps.len(),
{
    if ps.len() > 0 {
        lemma_literal_params_vars(ps.drop_last());
        assert(ps.last().free_vars() =~= Seq::<Seq<char>>::empty());
    }
}

} // verus!
