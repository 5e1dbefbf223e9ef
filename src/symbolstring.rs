use vstd::prelude::*;
use crate::names::names_view;
use crate::symbol::{lemma_concat_contains, lemma_params_vars_contains, Symbol, SymbolModel, symbol_text, symbol_vars, symbol_bound, values_of, compile_symbol};
use crate::ast::AstNode;
use crate::lexer::{TokenType, lexer};
use crate::parse_rules::{pat, leaf_word_node, param_leaf};
use crate::ast_to_arith::leaf_of;
use crate::lexer::tokens_view;
use crate::literal::{lemma_string_tokens_nonempty, literal_string, literal_symbol, literal_param, lemma_lex_literal_string, lemma_literal_groups,
    lemma_string_text_same, param_counts};
use crate::num::{num_text, lemma_num_text_reads_back};
use crate::parse_rules::{group_node, group_start, leaf_sum};
use crate::text::string_of;

verus! {

/// An ordered string of symbols; `[` and `]` symbols delimit branches.
pub struct SymbolString {
    pub symbols: Vec<Symbol>,
}

impl View for SymbolString {
    type V = Seq<SymbolModel>;

    open spec fn view(&self) -> Seq<SymbolModel> {
        self.symbols@.map_values(|s: Symbol| s@)
    }
}

/// Text of a symbol string: the texts of its symbols, in order.
pub open spec fn string_text(ms: Seq<SymbolModel>) -> Seq<char>
    decreases ms.len(),
{
    if ms.len() == 0 {
        Seq::empty()
    } else {
        string_text(ms.drop_last()) + symbol_text(ms.last())
    }
}

pub proof fn lemma_string_vars_contains(ms: Seq<SymbolModel>, x: Seq<char>)
    ensures
        string_vars(ms).contains(x) <==> exists|k: int| 0 <= k < ms.len() && symbol_vars(#[trigger] ms[k]).contains(x),
    decreases ms.len(),
{
    if ms.len() > 0 {
        lemma_string_vars_contains(ms.drop_last(), x);
        lemma_concat_contains(string_vars(ms.drop_last()), symbol_vars(ms.last()), x);
        if exists|k: int| 0 <= k < ms.len() && symbol_vars(#[trigger] ms[k]).contains(x) {
            let k = choose|k: int| 0 <= k < ms.len() && symbol_vars(#[trigger] ms[k]).contains(x);
            if k < ms.len() - 1 {
                assert(ms.drop_last()[k] == ms[k]);
            }
        }
        if exists|k: int| 0 <= k < ms.len() - 1 && symbol_vars(#[trigger] ms.drop_last()[k]).contains(x) {
            let k = choose|k: int| 0 <= k < ms.len() - 1 && symbol_vars(#[trigger] ms.drop_last()[k]).contains(x);
            assert(ms[k] == ms.drop_last()[k]);
        }
    }
}

/// Two symbol strings have the same glyphs and parameter values, in order.
pub open spec fn same_symbols(a: Seq<SymbolModel>, b: Seq<SymbolModel>) -> bool {
    a.len() == b.len() && forall|k: int| 0 <= k < a.len() ==> (#[trigger] a[k]).glyph == b[k].glyph
        && values_of(a[k]) == values_of(b[k])
}

/// Free-variable names of the symbols, symbol by symbol.
pub open spec fn string_vars(ms: Seq<SymbolModel>) -> Seq<Seq<char>>
    decreases ms.len(),
{
    if ms.len() == 0 {
        Seq::empty()
    } else {
        string_vars(ms.drop_last()) + symbol_vars(ms.last())
    }
}

proof fn lemma_values_prefix_len(ms: Seq<SymbolModel>, k: int)
    requires
        0 <= k <= ms.len(),
    ensures
        string_values(ms.take(k)).len() <= string_values(ms).len(),
        k < ms.len() ==> string_values(ms.take(k)).len() + ms[k].params.len() <= string_values(ms).len(),
        k < ms.len() ==> string_values(ms.take(k + 1)).len() == string_values(ms.take(k)).len() + ms[k].params.len(),
    decreases ms.len() - k,
{
    if k < ms.len() {
        assert(ms.take(k + 1).drop_last() =~= ms.take(k));
        assert(values_of(ms[k]).len() == ms[k].params.len());
        lemma_values_prefix_len(ms, k + 1);
    } else {
        assert(ms.take(k) =~= ms);
    }
}

/// Parameter values of the symbols, symbol by symbol.
pub open spec fn string_values(ms: Seq<SymbolModel>) -> Seq<i64>
    decreases ms.len(),
{
    if ms.len() == 0 {
        Seq::empty()
    } else {
        string_values(ms.drop_last()) + values_of(ms.last())
    }
}

pub open spec fn string_bound(ms: Seq<SymbolModel>, name: Seq<char>, val: i64) -> Seq<SymbolModel> {
    ms.map_values(|m: SymbolModel| symbol_bound(m, name, val))
}

pub open spec fn with_rule_set(ms: Seq<SymbolModel>, rs: Seq<char>) -> Seq<SymbolModel> {
    ms.map_values(|m: SymbolModel| SymbolModel { rule_set: rs, ..m })
}

pub open spec fn is_alias_of(m: SymbolModel, alias: Seq<char>) -> bool {
    m.params.len() == 0 && m.rule_set == seq!['r', 'o', 'o', 't'] && alias == seq![m.glyph]
}

/// Each symbol that stands for `alias` replaced by `value`.
pub open spec fn replaced(ms: Seq<SymbolModel>, alias: Seq<char>, value: Seq<SymbolModel>) -> Seq<SymbolModel>
    decreases ms.len(),
{
    if ms.len() == 0 {
        Seq::empty()
    } else {
        replaced(ms.drop_last(), alias, value) + if is_alias_of(ms.last(), alias) {
            value
        } else {
            seq![ms.last()]
        }
    }
}

/// Symbols of the first `k` children, each in rule set `rs`.
pub open spec fn compile_symbols(exp: AstNode, rs: Seq<char>, k: int) -> Option<Seq<SymbolModel>>
    decreases k,
{
    if k <= 0 {
        Some(Seq::empty())
    } else {
        match compile_symbols(exp, rs, k - 1) {
            None => None,
            Some(ms) => match compile_symbol(*exp.children@[k - 1]) {
                None => None,
                Some(m) => Some(ms.push(SymbolModel { rule_set: rs, ..m })),
            },
        }
    }
}

/// The symbol string of a pattern-like node (context, replacement,
/// predecessor or pattern): one symbol per child, in rule set `rs`.
pub open spec fn compile_string(exp: AstNode, rs: Seq<char>) -> Option<Seq<SymbolModel>> {
    if exp.node_type != TokenType::Lctx && exp.node_type != TokenType::Rctx
        && exp.node_type != TokenType::Replacement && exp.node_type != TokenType::Pred
        && exp.node_type != TokenType::Pat {
        None
    } else {
        compile_symbols(exp, rs, exp.children@.len() as int)
    }
}

proof fn lemma_compile_symbols_none_stays(exp: AstNode, rs: Seq<char>, m: int, k: int)
    requires
        compile_symbols(exp, rs, m) is None,
        m <= k,
    ensures
        compile_symbols(exp, rs, k) is None,
    decreases k - m,
{
    if m < k {
        lemma_compile_symbols_none_stays(exp, rs, m, k - 1);
    }
}

impl SymbolString {
    /// Builds a symbol string from a pattern-like node, one symbol per
    /// child, each in rule set `rule_set`.
    pub fn from_ast(exp: &AstNode, rule_set: String) -> (r: Result<SymbolString, &'static str>)
        ensures
            exp.node_type != TokenType::Lctx && exp.node_type != TokenType::Rctx
                && exp.node_type != TokenType::Replacement && exp.node_type != TokenType::Pred
                && exp.node_type != TokenType::Pat ==> r is Err,
            match r {
                Ok(x) => compile_string(*exp, rule_set@) == Some(x@),
                Err(_) => compile_string(*exp, rule_set@) is None,
            },
            r is Ok ==> r->Ok_0@.len() == exp.children@.len()
                && forall|k: int| 0 <= k < r->Ok_0@.len() ==> (#[trigger] r->Ok_0@[k]).rule_set == rule_set@,
            exp.node_type == TokenType::Pat && (forall|k: int| 0 <= k < exp.children@.len()
                ==> leaf_word_node(*#[trigger] exp.children@[k])) ==> r is Ok
                && forall|k: int| 0 <= k < exp.children@.len() ==> {
                    &&& (#[trigger] r->Ok_0@[k]).glyph == exp.children@[k].children@[0].data@[0]
                    &&& r->Ok_0@[k].params.len() == exp.children@[k].children@.len() - 1
                    &&& forall|j: int| 0 <= j < r->Ok_0@[k].params.len()
                        ==> r->Ok_0@[k].params[j] == leaf_of(param_leaf(*exp.children@[k], j + 1))
                },
    {
        if exp.node_type != TokenType::Lctx && exp.node_type != TokenType::Rctx
            && exp.node_type != TokenType::Replacement && exp.node_type != TokenType::Pred
            && exp.node_type != TokenType::Pat {
            return Err("SymbolString creation failed: invalid node type.");
        }
        let mut res = SymbolString::empty();
        let mut i: usize = 0;
        while i < exp.children.len()
            invariant
                i <= exp.children@.len(),
                res@.len() == i,
                compile_symbols(*exp, rule_set@, i as int) == Some(res@),
                forall|k: int| 0 <= k < res@.len() ==> (#[trigger] res@[k]).rule_set == rule_set@,
                (forall|k: int| 0 <= k < exp.children@.len() ==> leaf_word_node(*#[trigger] exp.children@[k]))
                    ==> forall|k: int| 0 <= k < i ==> {
                    &&& (#[trigger] res@[k]).glyph == exp.children@[k].children@[0].data@[0]
                    &&& res@[k].params.len() == exp.children@[k].children@.len() - 1
                    &&& forall|j: int| 0 <= j < res@[k].params.len()
                        ==> res@[k].params[j] == leaf_of(param_leaf(*exp.children@[k], j + 1))
                },
            decreases exp.children.len() - i,
        {
            let ghost before = res@;
            let mut sym = match Symbol::from_ast(&exp.children[i]) {
                Ok(sym) => sym,
                Err(e) => {
                    proof {
                        lemma_compile_symbols_none_stays(*exp, rule_set@, i + 1, exp.children@.len() as int);
                    }
                    return Err(e);
                },
            };
            let ghost m = sym@;
            sym.rule_set = rule_set.clone();
            assert(sym@ == (SymbolModel { rule_set: rule_set@, ..m }));
            res.push(sym);
            proof {
                assert forall|k: int| 0 <= k < i implies res@[k] == before[k] by {}
            }
            i += 1;
        }
        Ok(res)
    }

    /// Reads a symbol string from text: glyphs, each optionally followed by
    /// parenthesised parameter expressions. The text of a non-empty string
    /// of plain glyphs with non-negative literal parameters reads back to a
    /// string with that same text.
    pub fn from_string(exp: &str) -> (r: Result<SymbolString, &'static str>)
        ensures
            r is Ok ==> forall|k: int| 0 <= k < r->Ok_0@.len() ==> (#[trigger] r->Ok_0@[k]).rule_set.len() == 0,
            forall|ms: Seq<SymbolModel>| literal_string(ms) && exp@ == #[trigger] string_text(ms)
                ==> r is Ok && string_text(r->Ok_0@) == exp@ && same_symbols(r->Ok_0@, ms),
    {
        let tokens = lexer(exp);
        if tokens.len() == 0 {
            let r = SymbolString::empty();
            proof {
                assert forall|ms: Seq<SymbolModel>| literal_string(ms) && exp@ == #[trigger] string_text(ms)
                    implies string_text(r@) == exp@ && same_symbols(r@, ms) by {
                    if ms.len() > 0 {
                        lemma_lex_literal_string(ms);
                        lemma_string_tokens_nonempty(ms);
                        assert(tokens_view(tokens@).len() == tokens@.len());
                    } else {
                        assert(string_text(ms) =~= Seq::<char>::empty());
                        assert(string_text(r@) =~= Seq::<char>::empty());
                    }
                }
            }
            return Ok(r);
        }
        let (ast, _) = pat(&tokens, 0);
        proof {
            assert forall|ms: Seq<SymbolModel>| literal_string(ms) && exp@ == #[trigger] string_text(ms) implies ms.len() > 0 by {
                if ms.len() == 0 {
                    assert(string_text(ms) =~= Seq::<char>::empty());
                    assert(crate::lexer::lex(exp@) =~= Seq::<(TokenType, Seq<char>)>::empty());
                    assert(tokens_view(tokens@).len() == tokens@.len());
                }
            }
        }
        let ghost has = exists|ms: Seq<SymbolModel>| ms.len() > 0 && literal_string(ms) && exp@ == string_text(ms);
        let ghost ms = if has {
            choose|ms: Seq<SymbolModel>| ms.len() > 0 && literal_string(ms) && exp@ == string_text(ms)
        } else {
            Seq::empty()
        };
        proof {
            if has {
                lemma_lex_literal_string(ms);
                lemma_literal_groups(ms, tokens@);
                assert(param_counts(ms).len() > 0);
            }
        }
        match ast {
            Some(a) => {
                proof {
                    if has {
                        let ns = param_counts(ms);
                        assert forall|k: int| 0 <= k < a.children@.len() implies leaf_word_node(*#[trigger] a.children@[k]) by {
                            let p = group_start(0, ns, k);
                            assert(group_node(*a.children@[k], tokens@, p, ns[k]));
                            assert(tokens@[p].val@ == seq![ms[k].glyph]);
                            assert forall|q: int| 1 <= q < a.children@[k].children@.len() implies
                                (#[trigger] a.children@[k].children@[q]).children@.len() == 1
                                && leaf_sum(*a.children@[k].children@[q].children@[0], param_leaf(*a.children@[k], q)@)
                                && param_leaf(*a.children@[k], q)@.len() > 0 by {
                                let j = q - 1;
                                assert(a.children@[k].children@[j + 1].children@.len() == 1);
                                assert(tokens@[p + 2 + 2 * j].val@ == num_text(values_of(ms[k])[j] as int));
                                assert(literal_param(ms[k].params[j]));
                                lemma_num_text_reads_back(values_of(ms[k])[j] as int);
                            }
                        }
                    }
                }
                let r = SymbolString::from_ast(&a, String::new());
                proof {
                    if has {
                        let ns = param_counts(ms);
                        let out = r->Ok_0@;
                        assert forall|k: int| 0 <= k < ms.len() implies symbol_text(#[trigger] out[k]) == symbol_text(ms[k]) by {
                            let p = group_start(0, ns, k);
                            let m = ms[k];
                            assert(literal_symbol(m));
                            assert(group_node(*a.children@[k], tokens@, p, ns[k]));
                            assert(out[k].glyph == m.glyph) by {
                                assert(tokens@[p].val@ == seq![m.glyph]);
                            }
                            assert(values_of(out[k]) =~= values_of(m)) by {
                                assert forall|j: int| 0 <= j < m.params.len() implies values_of(out[k])[j] == values_of(m)[j] by {
                                    assert(literal_param(m.params[j]));
                                    let v = values_of(m)[j] as int;
                                    assert(tokens@[p + 2 + 2 * j].val@ == num_text(v));
                                    lemma_num_text_reads_back(v);
                                    assert(param_leaf(*a.children@[k], j + 1)@ == num_text(v));
                                    assert(out[k].params[j] == leaf_of(param_leaf(*a.children@[k], j + 1)));
                                }
                            }
                        }
                        lemma_string_text_same(out, ms);
                    }
                    assert forall|ms2: Seq<SymbolModel>| literal_string(ms2) && exp@ == #[trigger] string_text(ms2)
                        implies same_symbols(r->Ok_0@, ms2) by {
                        assert(ms2.len() > 0);
                        lemma_lex_literal_string(ms2);
                        lemma_literal_groups(ms2, tokens@);
                        let ns = param_counts(ms2);
                        assert(ns.len() > 0);
                        let out = r->Ok_0@;
                        assert forall|k: int| 0 <= k < ms2.len() implies (#[trigger] out[k]).glyph == ms2[k].glyph
                            && values_of(out[k]) == values_of(ms2[k]) by {
                            let p = group_start(0, ns, k);
                            let m = ms2[k];
                            assert(literal_symbol(m));
                            assert(group_node(*a.children@[k], tokens@, p, ns[k]));
                            assert(tokens@[p].val@ == seq![m.glyph]);
                            assert(values_of(out[k]) =~= values_of(m)) by {
                                assert forall|j: int| 0 <= j < m.params.len() implies values_of(out[k])[j] == values_of(m)[j] by {
                                    assert(literal_param(m.params[j]));
                                    let v = values_of(m)[j] as int;
                                    assert(tokens@[p + 2 + 2 * j].val@ == num_text(v));
                                    lemma_num_text_reads_back(v);
                                    assert(param_leaf(*a.children@[k], j + 1)@ == num_text(v));
                                    assert(out[k].params[j] == leaf_of(param_leaf(*a.children@[k], j + 1)));
                                }
                            }
                        }
                    }
                }
                r
            },
            None => Err("Could not parse expression to SymbolString"),
        }
    }

    pub fn empty() -> (r: SymbolString)
        ensures
            r@ == Seq::<SymbolModel>::empty(),
    {
        let r = SymbolString { symbols: Vec::new() };
        assert(r@ =~= Seq::<SymbolModel>::empty());
        r
    }

    pub fn len(&self) -> (r: usize)
        ensures
            r == self@.len(),
    {
        self.symbols.len()
    }

    pub fn push(&mut self, sym: Symbol)
        ensures
            final(self)@ == old(self)@.push(sym@),
    {
        self.symbols.push(sym);
        assert(self@ =~= old(self)@.push(sym@));
    }

    /// Appends copies of the symbols of `s`.
    pub fn push_str(&mut self, s: &SymbolString)
        ensures
            final(self)@ == old(self)@ + s@,
    {
        let mut i: usize = 0;
        while i < s.symbols.len()
            invariant
                i <= s@.len(),
                self@ == old(self)@ + s@.take(i as int),
            decreases s.symbols.len() - i,
        {
            self.push(s.symbols[i].copy());
            i += 1;
            assert(self@ =~= old(self)@ + s@.take(i as int));
        }
        assert(s@.take(i as int) =~= s@);
    }

    /// A copy of the string.
    pub fn copy(&self) -> (r: SymbolString)
        ensures
            r@ == self@,
    {
        let mut r = SymbolString::empty();
        r.push_str(self);
        assert(r@ =~= self@);
        r
    }

    /// Puts every symbol in rule set `rule_set`.
    pub fn rule_set(&mut self, rule_set: &String)
        ensures
            final(self)@ == with_rule_set(old(self)@, rule_set@),
    {
        let mut i: usize = 0;
        let ghost start = self@;
        while i < self.symbols.len()
            invariant
                i <= self@.len(),
                self@.len() == start.len(),
                start == old(self)@,
                forall|k: int| 0 <= k < i ==> self@[k] == (SymbolModel { rule_set: rule_set@, ..start[k] }),
                forall|k: int| i <= k < self@.len() ==> self@[k] == start[k],
            decreases self.symbols.len() - i,
        {
            let ghost before = self.symbols@;
            let ghost before_view = self@;
            let mut sym = self.symbols.remove(i);
            sym.rule_set = rule_set.clone();
            self.symbols.insert(i, sym);
            assert(self.symbols@ =~= before.update(i as int, sym));
            assert(before[i as int]@ == start[i as int]);
            assert(self@[i as int] == (SymbolModel { rule_set: rule_set@, ..start[i as int] }));
            assert forall|k: int| 0 <= k < i implies self@[k] == (SymbolModel { rule_set: rule_set@, ..start[k] }) by {
                assert(self.symbols@[k] == before[k]);
                assert(before_view[k] == before[k]@);
            }
            i += 1;
        }
        assert(self@ =~= with_rule_set(start, rule_set@));
    }

    /// Replaces each bare root-set symbol spelled as `alias` by a copy of `value`.
    pub fn replace(&mut self, alias: &String, value: &SymbolString)
        ensures
            final(self)@ == replaced(old(self)@, alias@, value@),
    {
        let mut res = SymbolString::empty();
        let mut i: usize = 0;
        while i < self.symbols.len()
            invariant
                i <= self@.len(),
                self@ == old(self)@,
                res@ == replaced(self@.take(i as int), alias@, value@),
            decreases self.symbols.len() - i,
        {
            assert(self@.take(i + 1).drop_last() =~= self@.take(i as int));
            if self.symbols[i].eq_alias(alias) {
                res.push_str(value);
            } else {
                let c = self.symbols[i].copy();
                res.push(c);
                assert(seq![c@] =~= Seq::<SymbolModel>::empty().push(c@));
            }
            i += 1;
        }
        assert(self@.take(i as int) =~= self@);
        self.symbols = res.symbols;
    }

    pub proof fn lemma_string_vars_contains(ms: Seq<SymbolModel>, x: Seq<char>)
    ensures
        string_vars(ms).contains(x) <==> exists|k: int| 0 <= k < ms.len() && symbol_vars(#[trigger] ms[k]).contains(x),
    decreases ms.len(),
{
    if ms.len() > 0 {
        lemma_string_vars_contains(ms.drop_last(), x);
        lemma_concat_contains(string_vars(ms.drop_last()), symbol_vars(ms.last()), x);
        if exists|k: int| 0 <= k < ms.len() && symbol_vars(#[trigger] ms[k]).contains(x) {
            let k = choose|k: int| 0 <= k < ms.len() && symbol_vars(#[trigger] ms[k]).contains(x);
            if k < ms.len() - 1 {
                assert(ms.drop_last()[k] == ms[k]);
            }
        }
        if exists|k: int| 0 <= k < ms.len() - 1 && symbol_vars(#[trigger] ms.drop_last()[k]).contains(x) {
            let k = choose|k: int| 0 <= k < ms.len() - 1 && symbol_vars(#[trigger] ms.drop_last()[k]).contains(x);
            assert(ms[k] == ms.drop_last()[k]);
        }
    }
}

/// Two symbol strings have the same glyphs and parameter values, in order.
pub open spec fn same_symbols(a: Seq<SymbolModel>, b: Seq<SymbolModel>) -> bool {
    a.len() == b.len() && forall|k: int| 0 <= k < a.len() ==> (#[trigger] a[k]).glyph == b[k].glyph
        && values_of(a[k]) == values_of(b[k])
}

/// Free-variable names of the symbols, symbol by symbol.
    pub fn vars(&self) -> (r: Vec<String>)
        ensures
            names_view(r@) == string_vars(self@),
    {
        let mut r: Vec<String> = Vec::new();
        let mut i: usize = 0;
        while i < self.symbols.len()
            invariant
                i <= self@.len(),
                names_view(r@) == string_vars(self@.take(i as int)),
            decreases self.symbols.len() - i,
        {
            let mut vs = self.symbols[i].free_var_names();
            let ghost before = r@;
            r.append(&mut vs);
            proof {
                assert(self@.take(i + 1).drop_last() =~= self@.take(i as int));
                assert(names_view(r@) =~= names_view(before) + symbol_vars(self@[i as int]));
            }
            i += 1;
        }
        assert(self@.take(i as int) =~= self@);
        r
    }

    /// Text of the string: the symbols' texts in order.
    pub fn to_string(&self) -> (r: String)
        ensures
            r@ == string_text(self@),
    {
        let mut out: Vec<char> = Vec::new();
        let mut i: usize = 0;
        while i < self.symbols.len()
            invariant
                i <= self@.len(),
                out@ == string_text(self@.take(i as int)),
            decreases self.symbols.len() - i,
        {
            self.symbols[i].push_text(&mut out);
            assert(self@.take(i + 1).drop_last() =~= self@.take(i as int));
            i += 1;
        }
        assert(self@.take(i as int) =~= self@);
        string_of(&out)
    }

    /// Sets every variable named `var` to `val` in all symbols; fails when no
    /// symbol has such a variable.
    pub fn set(&mut self, var: &String, val: i64) -> (r: Result<(), ()>)
        ensures
            final(self)@ == string_bound(old(self)@, var@, val),
            r is Ok <==> string_vars(old(self)@).contains(var@),
    {
        proof {
            lemma_string_vars_contains(old(self)@, var@);
        }
        let mut fail = true;
        let mut i: usize = 0;
        let ghost start = self@;
        while i < self.symbols.len()
            invariant
                i <= self@.len(),
                self@.len() == start.len(),
                start == old(self)@,
                forall|k: int| 0 <= k < i ==> self@[k] == symbol_bound(start[k], var@, val),
                forall|k: int| i <= k < self@.len() ==> self@[k] == start[k],
                fail <==> forall|k: int| 0 <= k < i ==> !symbol_vars(#[trigger] start[k]).contains(var@),
            decreases self.symbols.len() - i,
        {
            let ghost before = self.symbols@;
            let ghost before_view = self@;
            let mut sym = self.symbols.remove(i);
            proof {
                assert(sym@ == start[i as int]);
                lemma_params_vars_contains(sym@.params, var@);
            }
            if sym.set(var, val).is_ok() {
                fail = false;
            }
            self.symbols.insert(i, sym);
            assert(self.symbols@ =~= before.update(i as int, sym));
            assert(before[i as int]@ == start[i as int]);
            assert forall|k: int| 0 <= k < i implies self@[k] == symbol_bound(start[k], var@, val) by {
                assert(self.symbols@[k] == before[k]);
                assert(before_view[k] == before[k]@);
            }
            i += 1;
        }
        assert(self@ =~= string_bound(start, var@, val));
        if fail {
            Err(())
        } else {
            Ok(())
        }
    }

    /// Sets the parameters of all symbols, in order, from `vec`, each as
    /// `Symbol::set_i` does; `vec` holds at least one value per parameter.
    pub fn set_vec(&mut self, vec: &Vec<i64>)
        requires
            vec@.len() >= string_values(old(self)@).len(),
        ensures
            final(self)@.len() == old(self)@.len(),
    {
        let mut base: usize = 0;
        let mut k: usize = 0;
        let vl = vec.len();
        proof {
            lemma_values_prefix_len(old(self)@, 0);
        }
        while k < self.symbols.len()
            invariant
                k <= self@.len(),
                self@.len() == old(self)@.len(),
                forall|q: int| 0 <= q < self@.len() ==> (#[trigger] self@[q]).params.len() == old(self)@[q].params.len(),
                base == string_values(old(self)@.take(k as int)).len(),
                vec@.len() >= string_values(old(self)@).len(),
                vl == vec@.len(),
            decreases self.symbols.len() - k,
        {
            proof {
                lemma_values_prefix_len(old(self)@, k as int + 1);
                assert(old(self)@.take(k + 1).drop_last() =~= old(self)@.take(k as int));
            }
            let ghost before = self.symbols@;
            let ghost pre = self@;
            assert(pre[k as int] == before[k as int]@);
            let mut sym = self.symbols.remove(k);
            let n = sym.params.len();
            assert(n == old(self)@[k as int].params.len());
            proof {
                lemma_values_prefix_len(old(self)@, k as int);
            }
            assert(base + n <= vec@.len());
            let mut j: usize = 0;
            while j < n
                invariant
                    j <= n == sym@.params.len(),
                    base + n <= vl,
                    vl == vec@.len(),
                decreases n - j,
            {
                let _ = sym.set_i(j, vec[base + j]);
                j += 1;
            }
            self.symbols.insert(k, sym);
            proof {
                assert(self.symbols@ =~= before.update(k as int, sym));
                assert forall|q: int| 0 <= q < self@.len() implies (#[trigger] self@[q]).params.len() == old(self)@[q].params.len() by {
                    if q != k {
                        assert(self.symbols@[q] == before[q]);
                        assert(pre[q] == before[q]@);
                    }
                }
            }
            base = base + n;
            k += 1;
        }
    }

    /// Total number of parameters.
    pub fn n_params(&self) -> (r: usize)
        ensures
            r == string_values(self@).len(),
    {
        let v = self.get_vec();
        v.len()
    }

    /// Parameter values of all symbols, in order.
    pub fn get_vec(&self) -> (r: Vec<i64>)
        ensures
            r@ == string_values(self@),
    {
        let mut r: Vec<i64> = Vec::new();
        let mut i: usize = 0;
        while i < self.symbols.len()
            invariant
                i <= self@.len(),
                r@ == string_values(self@.take(i as int)),
            decreases self.symbols.len() - i,
        {
            let mut vs = self.symbols[i].get_vec();
            r.append(&mut vs);
            assert(self@.take(i + 1).drop_last() =~= self@.take(i as int));
            i += 1;
        }
        assert(self@.take(i as int) =~= self@);
        r
    }
}

} // verus!
