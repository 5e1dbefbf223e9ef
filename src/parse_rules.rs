use vstd::prelude::*;
use crate::ast::{AstNode, NodeView, node_view, children_view, lemma_children_view_push, lemma_children_view_len};
use crate::lexer::{Token, TokenType, lexer, lex, tokens_view};
use crate::bool_exp::BoolExp;
use crate::iter_ctx::IterCtx;
use crate::num::{SCALE, parse_decimal, is_digit, digits_value, is_decimal, fits_i64, decimal_value};
use crate::pattern::{Pattern, context_rank, table_view};
use crate::symbol::Symbol;
use crate::symbolstring::{SymbolString, compile_string, compile_symbols};
use crate::symbol::{SymbolModel, compile_symbol, compile_params};
use crate::ast_to_arith::lemma_leaf_sum_compiles;
use crate::ast_to_boolexp::{compile_cond, fold_conds};
use crate::text::{chars_of_string, lines_of, string_of, string_of_char, split_lines, strings_view};

verus! {

/// Result of a grammar production: the node, and the position after it.
pub type AstRet = (Option<Box<AstNode>>, usize);

/// A production either fails and stays at `index`, or reads at least one
/// token and stops within the tokens.
pub open spec fn advances(len: int, index: int, r: AstRet) -> bool {
    match r.0 {
        None => r.1 == index,
        Some(_) => index < r.1 <= len,
    }
}

/// The production read a node of kind `t`, if any.
pub open spec fn kind_is(r: AstRet, t: TokenType) -> bool {
    r.0 is Some ==> r.0->Some_0.node_type == t
}

/// A number token at `i`.
pub open spec fn number_at(tokens: Seq<Token>, i: int) -> bool {
    0 <= i < tokens.len() && tokens[i].toktype == TokenType::Number
}

/// No arithmetic operator token at `i`.
pub open spec fn no_op_at(tokens: Seq<Token>, i: int) -> bool {
    !(0 <= i < tokens.len() && tokens[i].toktype == TokenType::Char && (tokens[i].val@ == seq!['+']
        || tokens[i].val@ == seq!['-'] || tokens[i].val@ == seq!['*'] || tokens[i].val@ == seq!['/']))
}

/// A factor node that is a bare leaf with text `d`.
pub open spec fn leaf_factor(n: AstNode, d: Seq<char>) -> bool {
    n.node_type == TokenType::Apara && n.data@ == d && n.children@.len() == 0
}

/// A product node made of one leaf factor with text `d`.
pub open spec fn leaf_product(n: AstNode, d: Seq<char>) -> bool {
    n.node_type == TokenType::AexpMul && n.children@.len() == 1 && leaf_factor(*n.children@[0], d)
}

/// A sum node made of one product of one leaf factor with text `d`.
pub open spec fn leaf_sum(n: AstNode, d: Seq<char>) -> bool {
    n.node_type == TokenType::Aexp && n.children@.len() == 1 && leaf_product(*n.children@[0], d)
}

/// Text of the leaf inside parameter child `k` of a word node.
pub open spec fn param_leaf(n: AstNode, k: int) -> String {
    n.children@[k].children@[0].children@[0].children@[0].data
}

/// A parametric-word node whose parameters are each a single non-empty leaf.
pub open spec fn leaf_word_node(n: AstNode) -> bool {
    &&& n.node_type == TokenType::ParamWord
    &&& n.children@.len() >= 1
    &&& n.children@[0].data@.len() > 0
    &&& forall|k: int| 1 <= k < n.children@.len() ==> (#[trigger] n.children@[k]).children@.len() == 1
        && leaf_sum(*n.children@[k].children@[0], param_leaf(n, k)@) && param_leaf(n, k)@.len() > 0
}

/// A node with no children.
pub open spec fn leaf_view(kind: TokenType, data: Seq<char>) -> NodeView {
    NodeView { kind, data, children: Seq::empty() }
}

/// Number or name at `i` (a number token, or a run of letters).
pub open spec fn g_num(t: Seq<Token>, i: int) -> Option<(NodeView, int)> {
    if number_at(t, i) {
        Some((leaf_view(TokenType::Anum, t[i].val@), i + 1))
    } else if 0 <= i < t.len() && t[i].toktype == TokenType::Letter {
        Some((leaf_view(TokenType::Anum, concat_vals(t, i, letters_end(t, i))), letters_end(t, i)))
    } else {
        None
    }
}

/// Factor at `i`: `'(' sum ')'`, the sum the only child of the factor
/// node, or a number or name.
pub open spec fn g_factor(t: Seq<Token>, i: int) -> Option<(NodeView, int)>
    decreases t.len() - i, 1nat,
{
    if !(0 <= i < t.len()) {
        None
    } else if t[i].toktype != TokenType::Lpara {
        match g_num(t, i) {
            Some((n, j)) => Some((NodeView { kind: TokenType::Apara, ..n }, j)),
            None => None,
        }
    } else {
        match g_sum(t, i + 1) {
            Some((e, j)) => if i + 1 < j < t.len() && t[j].toktype == TokenType::Rpara {
                Some((NodeView { kind: TokenType::Apara, data: Seq::empty(), children: seq![e] }, j + 1))
            } else {
                None
            },
            None => None,
        }
    }
}

/// The operator character at `i` among `a` and `b`.
pub open spec fn op_char(t: Seq<Token>, i: int, a: char, b: char) -> Option<char> {
    if char_at_tok(t, i, a) { Some(a) } else if char_at_tok(t, i, b) { Some(b) } else { None }
}

/// Product at `i`: factors joined left to right by `*` and `/`.
pub open spec fn g_prod(t: Seq<Token>, i: int) -> Option<(NodeView, int)>
    decreases t.len() - i, 2nat,
{
    match g_factor(t, i) {
        None => None,
        Some((f, j)) => if i < j <= t.len() { g_prod_tail(t, j, seq![f]) } else { None },
    }
}

/// The rest of a product from `j`, after the children `acc`.
pub open spec fn g_prod_tail(t: Seq<Token>, j: int, acc: Seq<NodeView>) -> Option<(NodeView, int)>
    decreases t.len() - j, 2nat,
{
    match op_char(t, j, '*', '/') {
        None => Some((NodeView { kind: TokenType::AexpMul, data: Seq::empty(), children: acc }, j)),
        Some(c) => if !(0 <= j < t.len()) { None } else {
            match g_factor(t, j + 1) {
                None => None,
                Some((f, k)) => if j + 1 < k <= t.len() {
                    g_prod_tail(t, k, acc.push(leaf_view(TokenType::Mul, seq![c])).push(f))
                } else {
                    None
                },
            }
        },
    }
}

/// Sum at `i`: products joined left to right by `+` and `-`.
pub open spec fn g_sum(t: Seq<Token>, i: int) -> Option<(NodeView, int)>
    decreases t.len() - i, 3nat,
{
    match g_prod(t, i) {
        None => None,
        Some((m, j)) => if i < j <= t.len() { g_sum_tail(t, j, seq![m]) } else { None },
    }
}

/// The rest of a sum from `j`, after the children `acc`.
pub open spec fn g_sum_tail(t: Seq<Token>, j: int, acc: Seq<NodeView>) -> Option<(NodeView, int)>
    decreases t.len() - j, 3nat,
{
    match op_char(t, j, '+', '-') {
        None => Some((NodeView { kind: TokenType::Aexp, data: Seq::empty(), children: acc }, j)),
        Some(c) => if !(0 <= j < t.len()) { None } else {
            match g_prod(t, j + 1) {
                None => None,
                Some((m, k)) => if j + 1 < k <= t.len() {
                    g_sum_tail(t, k, acc.push(leaf_view(TokenType::Add, seq![c])).push(m))
                } else {
                    None
                },
            }
        },
    }
}

/// Comparison at `i`: sum, comparison operator, sum; the operator's text
/// is the node's text.
pub open spec fn g_comp(t: Seq<Token>, i: int) -> Option<(NodeView, int)>
    decreases t.len() - i, 5nat,
{
    match g_sum(t, i) {
        None => None,
        Some((a, j)) => if i < j <= t.len() && compop_at(t, j) {
            match g_sum(t, j + 1) {
                Some((b, k)) => if j + 1 < k <= t.len() {
                    Some((NodeView { kind: TokenType::CompExp, data: t[j].val@, children: seq![a, b] }, k))
                } else {
                    None
                },
                None => None,
            }
        } else {
            None
        },
    }
}

/// Boolean at `i`: a run of letters spelling `true` or `false`, else a comparison.
pub open spec fn g_cond_bool(t: Seq<Token>, i: int) -> Option<(NodeView, int)>
    decreases t.len() - i, 6nat,
{
    if 0 <= i < t.len() && t[i].toktype == TokenType::Letter
        && (concat_vals(t, i, letters_end(t, i)) == true_word() || concat_vals(t, i, letters_end(t, i)) == false_word()) {
        Some((leaf_view(TokenType::CondBool, concat_vals(t, i, letters_end(t, i))), letters_end(t, i)))
    } else {
        g_comp(t, i)
    }
}

/// Parenthesised condition at `i`, else a boolean.
pub open spec fn g_cond_para(t: Seq<Token>, i: int) -> Option<(NodeView, int)>
    decreases t.len() - i, 7nat,
{
    if 0 <= i < t.len() && t[i].toktype == TokenType::Lpara {
        match g_cond(t, i + 1) {
            Some((c, j)) => if i + 1 < j < t.len() && t[j].toktype == TokenType::Rpara { Some((c, j + 1)) } else { None },
            None => g_cond_bool(t, i),
        }
    } else {
        g_cond_bool(t, i)
    }
}

/// Conjunction at `i`: conditions joined by `&`, left to right.
pub open spec fn g_cond_and(t: Seq<Token>, i: int) -> Option<(NodeView, int)>
    decreases t.len() - i, 8nat,
{
    match g_cond_para(t, i) {
        None => None,
        Some((p, j)) => if i < j <= t.len() { g_and_tail(t, j, seq![p]) } else { None },
    }
}

pub open spec fn g_and_tail(t: Seq<Token>, j: int, acc: Seq<NodeView>) -> Option<(NodeView, int)>
    decreases t.len() - j, 8nat,
{
    if char_at_tok(t, j, '&') {
        match g_cond_para(t, j + 1) {
            None => None,
            Some((p, k)) => if j + 1 < k <= t.len() { g_and_tail(t, k, acc.push(p)) } else { None },
        }
    } else {
        Some((NodeView { kind: TokenType::CondAnd, data: Seq::empty(), children: acc }, j))
    }
}

/// Condition at `i`: an optional `!` over conjunctions joined by `|`.
pub open spec fn g_cond(t: Seq<Token>, i: int) -> Option<(NodeView, int)>
    decreases t.len() - i, 9nat,
{
    let neg = char_at_tok(t, i, '!');
    let i2 = if neg { i + 1 } else { i };
    match g_cond_and(t, i2) {
        None => None,
        Some((a, j)) => if i2 < j <= t.len() {
            match g_or_tail(t, j, seq![a]) {
                None => None,
                Some((c, k)) => if neg {
                    Some((NodeView { kind: TokenType::Not, data: seq!['!'], children: seq![c] }, k))
                } else {
                    Some((c, k))
                },
            }
        } else {
            None
        },
    }
}

pub open spec fn g_or_tail(t: Seq<Token>, j: int, acc: Seq<NodeView>) -> Option<(NodeView, int)>
    decreases t.len() - j, 9nat,
{
    if char_at_tok(t, j, '|') {
        match g_cond_and(t, j + 1) {
            None => None,
            Some((a, k)) => if j + 1 < k <= t.len() { g_or_tail(t, k, acc.push(a)) } else { None },
        }
    } else {
        Some((NodeView { kind: TokenType::Cond, data: Seq::empty(), children: acc }, j))
    }
}

pub open spec fn param_view(e: NodeView) -> NodeView {
    NodeView { kind: TokenType::Param, data: Seq::empty(), children: seq![e] }
}

/// Parametric word at `i`: a character or letter glyph, then optionally
/// `(` sums separated by commas `)`, each sum under a parameter node.
pub open spec fn g_pword(t: Seq<Token>, i: int) -> Option<(NodeView, int)>
    decreases t.len() - i, 4nat,
{
    if !(0 <= i < t.len() && (t[i].toktype == TokenType::Char || t[i].toktype == TokenType::Letter)) {
        None
    } else if i + 1 < t.len() && t[i + 1].toktype == TokenType::Lpara {
        match g_sum(t, i + 2) {
            None => None,
            Some((e, j)) => if i + 2 < j <= t.len() {
                g_params_tail(t, j, seq![leaf_view(TokenType::Word, t[i].val@), param_view(e)])
            } else {
                None
            },
        }
    } else {
        Some((NodeView { kind: TokenType::ParamWord, data: Seq::empty(), children: seq![leaf_view(TokenType::Word, t[i].val@)] }, i + 1))
    }
}

pub open spec fn g_params_tail(t: Seq<Token>, j: int, acc: Seq<NodeView>) -> Option<(NodeView, int)>
    decreases t.len() - j, 4nat,
{
    if char_at_tok(t, j, ',') {
        match g_sum(t, j + 1) {
            None => None,
            Some((e, k)) => if j + 1 < k <= t.len() { g_params_tail(t, k, acc.push(param_view(e))) } else { None },
        }
    } else if 0 <= j < t.len() && t[j].toktype == TokenType::Rpara {
        Some((NodeView { kind: TokenType::ParamWord, data: Seq::empty(), children: acc }, j + 1))
    } else {
        None
    }
}

/// A bare bracket glyph at `i`.
pub open spec fn g_bracket(t: Seq<Token>, i: int) -> Option<(NodeView, int)> {
    if 0 <= i < t.len() && (t[i].toktype == TokenType::Lpsep || t[i].toktype == TokenType::Rpsep) {
        Some((NodeView { kind: TokenType::ParamWord, data: Seq::empty(), children: seq![leaf_view(TokenType::Word, t[i].val@)] }, i + 1))
    } else {
        None
    }
}

pub open spec fn g_word_or_bracket(t: Seq<Token>, i: int) -> Option<(NodeView, int)> {
    match g_pword(t, i) {
        Some(x) => Some(x),
        None => g_bracket(t, i),
    }
}

/// Pattern from `j` after the words `acc`: as many words or brackets as follow.
pub open spec fn g_pat_tail(t: Seq<Token>, j: int, acc: Seq<NodeView>) -> Option<(NodeView, int)>
    decreases t.len() - j,
{
    match g_word_or_bracket(t, j) {
        Some((w, k)) => if j < k <= t.len() { g_pat_tail(t, k, acc.push(w)) } else { None },
        None => if acc.len() > 0 {
            Some((NodeView { kind: TokenType::Pat, data: Seq::empty(), children: acc }, j))
        } else {
            None
        },
    }
}

/// Pattern at `i`: one or more words or brackets.
pub open spec fn g_pat(t: Seq<Token>, i: int) -> Option<(NodeView, int)> {
    g_pat_tail(t, i, Seq::empty())
}

pub open spec fn with_kind(o: Option<(NodeView, int)>, k: TokenType) -> Option<(NodeView, int)> {
    match o {
        Some((n, j)) => Some((NodeView { kind: k, ..n }, j)),
        None => None,
    }
}

/// Left context at `i`: a pattern and `<`.
pub open spec fn g_lctx(t: Seq<Token>, i: int) -> Option<(NodeView, int)> {
    match g_pat(t, i) {
        Some((p, j)) => if 0 <= j < t.len() && t[j].toktype == TokenType::Lsep {
            Some((NodeView { kind: TokenType::Lctx, ..p }, j + 1))
        } else {
            None
        },
        None => None,
    }
}

/// Right context at `i`: `>` and a pattern.
pub open spec fn g_rctx(t: Seq<Token>, i: int) -> Option<(NodeView, int)> {
    if 0 <= i < t.len() && t[i].toktype == TokenType::Rsep { with_kind(g_pat(t, i + 1), TokenType::Rctx) } else { None }
}

/// Probability at `i`: `@` and a number.
pub open spec fn g_prob(t: Seq<Token>, i: int) -> Option<(NodeView, int)> {
    if i + 1 < t.len() && 0 <= i && t[i].toktype == TokenType::Psep && t[i + 1].toktype == TokenType::Number {
        Some((leaf_view(TokenType::Prob, t[i + 1].val@), i + 2))
    } else {
        None
    }
}

pub open spec fn parsed_as(r: AstRet, g: Option<(NodeView, int)>) -> bool {
    match r.0 {
        Some(n) => g == Some((node_view(*n), r.1 as int)),
        None => g is None,
    }
}

/// Number of tokens of a literal word with `n` parameters.
pub open spec fn group_len(n: nat) -> int {
    if n == 0 { 1 } else { 2 + 2 * (n as int) }
}

/// Tokens of a simple word at `i` with `n` parameters: a glyph, and for
/// `n > 0` a parenthesised list of `n` numbers or one-letter names
/// separated by commas.
pub open spec fn literal_word_at(t: Seq<Token>, i: int, n: nat) -> bool {
    &&& 0 <= i && i + group_len(n) <= t.len()
    &&& t[i].val@.len() > 0
    &&& forall|k: int| 0 <= k < n ==> (#[trigger] t[i + 2 + 2 * k]).val@.len() > 0
    &&& (t[i].toktype == TokenType::Char || t[i].toktype == TokenType::Letter
        || (n == 0 && (t[i].toktype == TokenType::Lpsep || t[i].toktype == TokenType::Rpsep)))
    &&& n == 0 ==> !(i + 1 < t.len() && t[i + 1].toktype == TokenType::Lpara)
    &&& n > 0 ==> {
        &&& t[i + 1].toktype == TokenType::Lpara
        &&& t[i + 1 + 2 * n].toktype == TokenType::Rpara
        &&& forall|k: int| 0 <= k < n ==> (#[trigger] t[i + 2 + 2 * k]).toktype == TokenType::Number
            || t[i + 2 + 2 * k].toktype == TokenType::Letter
        &&& forall|k: int| 0 <= k < n - 1 ==> (#[trigger] t[i + 3 + 2 * k]).toktype == TokenType::Char
            && t[i + 3 + 2 * k].val@ == seq![',']
    }
}

/// The node of a literal word read from the tokens at `p`.
pub open spec fn group_node(node: AstNode, t: Seq<Token>, p: int, n: nat) -> bool {
    &&& node.node_type == TokenType::ParamWord
    &&& node.children@.len() == n + 1
    &&& node.children@[0].data@ == t[p].val@
    &&& forall|k: int| 0 <= k < n ==> {
        &&& (#[trigger] node.children@[k + 1]).node_type == TokenType::Param
        &&& node.children@[k + 1].children@.len() == 1
        &&& leaf_sum(*node.children@[k + 1].children@[0], t[p + 2 + 2 * k].val@)
    }
}

/// Start of group `k` when the groups from `index` on have the parameter counts `ns`.
pub open spec fn group_start(index: int, ns: Seq<nat>, k: int) -> int
    decreases k,
{
    if k <= 0 { index } else { group_start(index, ns, k - 1) + group_len(ns[k - 1]) }
}

/// The tokens from `index` on are simple words with the parameter counts
/// `ns`, followed by the end or by a token that cannot start a word.
pub open spec fn literal_groups(t: Seq<Token>, index: int, ns: Seq<nat>) -> bool {
    &&& forall|k: int| 0 <= k < ns.len() ==> literal_word_at(t, #[trigger] group_start(index, ns, k), ns[k])
    &&& group_start(index, ns, ns.len() as int) <= t.len()
    &&& !glyph_start(t, group_start(index, ns, ns.len() as int))
}

/// A node of kind `kind` whose children are the nodes of the simple words
/// with parameter counts `ns` read from `index`.
pub open spec fn groups_node(node: AstNode, t: Seq<Token>, index: int, ns: Seq<nat>, kind: TokenType) -> bool {
    &&& node.node_type == kind
    &&& node.children@.len() == ns.len()
    &&& forall|k: int| 0 <= k < ns.len() ==> group_node(
        *(#[trigger] node.children@[k]), t, group_start(index, ns, k), ns[k])
}

/// A token at `i` that can start a word: a character, a letter or a bracket.
pub open spec fn glyph_start(t: Seq<Token>, i: int) -> bool {
    0 <= i < t.len() && (t[i].toktype == TokenType::Char || t[i].toktype == TokenType::Letter
        || t[i].toktype == TokenType::Lpsep || t[i].toktype == TokenType::Rpsep)
}

/// The texts of the tokens from `a` to `b`, run together.
pub open spec fn concat_vals(t: Seq<Token>, a: int, b: int) -> Seq<char>
    decreases b - a,
{
    if b <= a { Seq::empty() } else { concat_vals(t, a, b - 1) + t[b - 1].val@ }
}

/// The word `w` spelled by one-letter tokens from `i`, and no letter after it.
pub open spec fn letters_are(t: Seq<Token>, i: int, w: Seq<char>) -> bool {
    &&& 0 <= i && i + w.len() <= t.len()
    &&& forall|k: int| 0 <= k < w.len() ==> (#[trigger] t[i + k]).toktype == TokenType::Letter && t[i + k].val@ == seq![w[k]]
    &&& !(i + w.len() < t.len() && t[i + w.len()].toktype == TokenType::Letter)
}

pub open spec fn true_word() -> Seq<char> {
    seq!['t', 'r', 'u', 'e']
}

pub open spec fn false_word() -> Seq<char> {
    seq!['f', 'a', 'l', 's', 'e']
}

/// A comparison operator token at `i` (`<` and `>` come as separators).
pub open spec fn compop_at(t: Seq<Token>, i: int) -> bool {
    0 <= i < t.len() && (t[i].toktype == TokenType::CompOp || t[i].toktype == TokenType::Lsep
        || t[i].toktype == TokenType::Rsep)
}

/// A comparison of two atoms at `i`: atom, operator, atom.
pub open spec fn simple_comp_at(t: Seq<Token>, i: int) -> bool {
    &&& atom_at(t, i) && (t[i].toktype == TokenType::Letter ==> t[i].val@.len() == 1)
    &&& compop_at(t, i + 1)
    &&& atom_at(t, i + 2) && no_op_at(t, i + 3)
    &&& t[i].val@.len() > 0 && t[i + 2].val@.len() > 0
}

/// End of a simple boolean at `i`: `true`, `false`, or a comparison of two atoms.
pub open spec fn simple_bool_end(t: Seq<Token>, i: int) -> Option<int> {
    if letters_are(t, i, true_word()) {
        Some(i + 4)
    } else if letters_are(t, i, false_word()) {
        Some(i + 5)
    } else if simple_comp_at(t, i) {
        Some(i + 3)
    } else {
        None
    }
}

/// The node of a simple boolean at `i`.
pub open spec fn simple_bool_node(n: AstNode, t: Seq<Token>, i: int) -> bool {
    if letters_are(t, i, true_word()) {
        n.node_type == TokenType::CondBool && n.data@ == true_word()
    } else if letters_are(t, i, false_word()) {
        n.node_type == TokenType::CondBool && n.data@ == false_word()
    } else {
        &&& n.node_type == TokenType::CompExp
        &&& n.data@ == t[i + 1].val@
        &&& n.children@.len() == 2
        &&& leaf_sum(*n.children@[0], t[i].val@)
        &&& leaf_sum(*n.children@[1], t[i + 2].val@)
    }
}

/// A condition that is one simple boolean, at `i`, ending at `e`: followed
/// by neither `&` nor `|`.
pub open spec fn simple_cond_at(t: Seq<Token>, i: int, e: int) -> bool {
    simple_bool_end(t, i) == Some(e) && !char_at_tok(t, e, '&') && !char_at_tok(t, e, '|')
}

/// The condition tree of a simple boolean at `i`.
pub open spec fn simple_cond_node(n: AstNode, t: Seq<Token>, i: int) -> bool {
    &&& n.node_type == TokenType::Cond
    &&& n.children@.len() == 1
    &&& n.children@[0].node_type == TokenType::CondAnd
    &&& n.children@[0].children@.len() == 1
    &&& simple_bool_node(*n.children@[0].children@[0], t, i)
}

/// A `Char` token with the text `c` at `i`.
pub open spec fn char_at_tok(t: Seq<Token>, i: int, c: char) -> bool {
    0 <= i < t.len() && t[i].toktype == TokenType::Char && t[i].val@ == seq![c]
}

/// A number token, or a one-letter name, at `i`.
pub open spec fn atom_at(t: Seq<Token>, i: int) -> bool {
    number_at(t, i) || (0 <= i < t.len() && t[i].toktype == TokenType::Letter
        && !(i + 1 < t.len() && t[i + 1].toktype == TokenType::Letter))
}

proof fn lemma_word_count_unique(t: Seq<Token>, i: int, n1: nat, n2: nat)
    requires
        literal_word_at(t, i, n1),
        literal_word_at(t, i, n2),
    ensures
        n1 == n2,
{
    if n1 < n2 {
        if n1 > 0 {
            assert(t[i + 1 + 2 * n1].toktype == TokenType::Rpara);
            let k = n1 - 1;
            assert(t[i + 3 + 2 * k].toktype == TokenType::Char);
        }
    } else if n2 < n1 {
        if n2 > 0 {
            assert(t[i + 1 + 2 * n2].toktype == TokenType::Rpara);
            let k = n2 - 1;
            assert(t[i + 3 + 2 * k].toktype == TokenType::Char);
        }
    }
}

proof fn lemma_group_start_mono(index: int, ns: Seq<nat>, a: int, b: int)
    requires
        0 <= a <= b,
        b <= ns.len(),
    ensures
        group_start(index, ns, a) + (b - a) <= group_start(index, ns, b),
    decreases b - a,
{
    if a < b {
        lemma_group_start_mono(index, ns, a, b - 1);
    }
}

proof fn lemma_groups_unique(t: Seq<Token>, index: int, ns1: Seq<nat>, ns2: Seq<nat>)
    requires
        literal_groups(t, index, ns1),
        literal_groups(t, index, ns2),
    ensures
        ns1 == ns2,
{
    let m = if ns1.len() < ns2.len() { ns1.len() } else { ns2.len() };
    assert forall|k: int| 0 <= k < m implies ns1[k] == ns2[k] && group_start(index, ns1, k + 1) == group_start(index, ns2, k + 1) by {
        lemma_groups_agree(t, index, ns1, ns2, k);
    }
    if ns1.len() != ns2.len() {
        lemma_groups_agree_start(t, index, ns1, ns2, m as int);
        if ns1.len() < ns2.len() {
            assert(literal_word_at(t, group_start(index, ns2, m as int), ns2[m as int]));
        } else {
            assert(literal_word_at(t, group_start(index, ns1, m as int), ns1[m as int]));
        }
    }
    assert(ns1 =~= ns2);
}

proof fn lemma_groups_agree_start(t: Seq<Token>, index: int, ns1: Seq<nat>, ns2: Seq<nat>, k: int)
    requires
        literal_groups(t, index, ns1),
        literal_groups(t, index, ns2),
        0 <= k <= ns1.len(),
        k <= ns2.len(),
    ensures
        group_start(index, ns1, k) == group_start(index, ns2, k),
    decreases k, 0nat,
{
    if k > 0 {
        lemma_groups_agree(t, index, ns1, ns2, k - 1);
    }
}

proof fn lemma_groups_agree(t: Seq<Token>, index: int, ns1: Seq<nat>, ns2: Seq<nat>, k: int)
    requires
        literal_groups(t, index, ns1),
        literal_groups(t, index, ns2),
        0 <= k < ns1.len(),
        k < ns2.len(),
    ensures
        ns1[k] == ns2[k],
        group_start(index, ns1, k + 1) == group_start(index, ns2, k + 1),
    decreases k, 1nat,
{
    lemma_groups_agree_start(t, index, ns1, ns2, k);
    assert(literal_word_at(t, group_start(index, ns1, k), ns1[k]));
    assert(literal_word_at(t, group_start(index, ns2, k), ns2[k]));
    lemma_word_count_unique(t, group_start(index, ns1, k), ns1[k], ns2[k]);
}

fn tok_is(tokens: &Vec<Token>, i: usize, t: TokenType) -> (r: bool)
    ensures
        r == (i < tokens@.len() && tokens@[i as int].toktype == t),
        tokens@.len() <= usize::MAX,
{
    i < tokens.len() && tokens[i].toktype == t
}

/// The token at `i` is the one-character `Char` token `c`.
fn char_tok_is(tokens: &Vec<Token>, i: usize, c: char) -> (r: bool)
    ensures
        r == (i < tokens@.len() && tokens@[i as int].toktype == TokenType::Char
            && tokens@[i as int].val@ == seq![c]),
        tokens@.len() <= usize::MAX,
{
    if i >= tokens.len() || tokens[i].toktype != TokenType::Char {
        return false;
    }
    let cs = chars_of_string(&tokens[i].val);
    proof {
        if cs@ == seq![c] {
            assert(cs@[0] == c);
        }
    }
    if cs.len() == 1 && cs[0] == c {
        assert(cs@ =~= seq![c]);
        true
    } else {
        false
    }
}

fn leaf(data: String, node_type: TokenType) -> (r: Box<AstNode>)
    ensures
        r.data == data,
        r.children@.len() == 0,
        r.node_type == node_type,
{
    Box::new(AstNode { data, children: Vec::new(), node_type })
}

fn inner(node_type: TokenType) -> (r: AstNode)
    ensures
        r.data@.len() == 0,
        r.children@.len() == 0,
        r.node_type == node_type,
{
    AstNode { data: String::new(), children: Vec::new(), node_type }
}

/// Left context: `pat '<'`.
fn lctx(tokens: &Vec<Token>, index: usize) -> (r: AstRet)
    requires
        index <= tokens@.len(),
    ensures
        advances(tokens@.len() as int, index as int, r),
        kind_is(r, TokenType::Lctx),
        !glyph_start(tokens@, index as int) ==> r.0 is None,
        parsed_as(r, g_lctx(tokens@, index as int)),
        forall|ns: Seq<nat>| ns.len() > 0 && #[trigger] literal_groups(tokens@, index as int, ns) ==> {
            let e = group_start(index as int, ns, ns.len() as int);
            &&& (e < tokens@.len() && tokens@[e].toktype == TokenType::Lsep) ==> r.0 is Some && r.1 == e + 1
                && groups_node(*r.0->Some_0, tokens@, index as int, ns, TokenType::Lctx)
            &&& !(e < tokens@.len() && tokens@[e].toktype == TokenType::Lsep) ==> r.0 is None
        },
{
    let (p, j) = pat(tokens, index);
    match p {
        Some(mut p) => {
            if !tok_is(tokens, j, TokenType::Lsep) {
                return (None, index);
            }
            let ghost p0 = *p;
            p.node_type = TokenType::Lctx;
            proof {
                crate::ast::lemma_children_view_same(p0, *p, p.children@.len() as int);
            }
            (Some(p), j + 1)
        },
        None => (None, index),
    }
}

/// Right context: `'>' pat`.
fn rctx(tokens: &Vec<Token>, index: usize) -> (r: AstRet)
    requires
        index <= tokens@.len(),
    ensures
        advances(tokens@.len() as int, index as int, r),
        kind_is(r, TokenType::Rctx),
        !(index < tokens@.len() && tokens@[index as int].toktype == TokenType::Rsep) ==> r.0 is None,
        parsed_as(r, g_rctx(tokens@, index as int)),
        forall|ns: Seq<nat>| ns.len() > 0 && index < tokens@.len() && tokens@[index as int].toktype == TokenType::Rsep
            && #[trigger] literal_groups(tokens@, index + 1, ns) ==> r.0 is Some
            && r.1 == group_start(index + 1, ns, ns.len() as int)
            && groups_node(*r.0->Some_0, tokens@, index + 1, ns, TokenType::Rctx),
{
    if !tok_is(tokens, index, TokenType::Rsep) {
        return (None, index);
    }
    let (p, j) = pat(tokens, index + 1);
    match p {
        Some(mut p) => {
            let ghost p0 = *p;
            p.node_type = TokenType::Rctx;
            proof {
                crate::ast::lemma_children_view_same(p0, *p, p.children@.len() as int);
            }
            (Some(p), j)
        },
        None => (None, index),
    }
}

/// One parameter node around an arithmetic expression.
fn param_node(e: Box<AstNode>) -> (r: Box<AstNode>)
    ensures
        r.node_type == TokenType::Param,
        r.children@ == seq![e],
        node_view(*r) == param_view(node_view(*e)),
{
    let mut n = inner(TokenType::Param);
    let ghost n0 = n;
    n.children.push(e);
    assert(n.children@ =~= seq![e]);
    proof {
        lemma_children_view_push(n0, n, e);
        assert(children_view(n0, 0) =~= Seq::<NodeView>::empty());
        assert(children_view(n, 1) =~= seq![node_view(*e)]);
        assert(n.data@ =~= Seq::<char>::empty());
    }
    Box::new(n)
}

/// Parametric word: a glyph, optionally followed by `(` arithmetic
/// expressions separated by commas `)`.
pub fn p_word(tokens: &Vec<Token>, index: usize) -> (r: AstRet)
    requires
        index <= tokens@.len(),
    ensures
        advances(tokens@.len() as int, index as int, r),
        kind_is(r, TokenType::ParamWord),
        !(index < tokens@.len() && (tokens@[index as int].toktype == TokenType::Char
            || tokens@[index as int].toktype == TokenType::Letter)) ==> r.0 is None,
        forall|n: nat| literal_word_at(tokens@, index as int, n) && (tokens@[index as int].toktype == TokenType::Char
            || tokens@[index as int].toktype == TokenType::Letter) ==> r.0 is Some
            && r.1 == index + group_len(n) && group_node(*r.0->Some_0, tokens@, index as int, n),
        parsed_as(r, g_pword(tokens@, index as int)),
    decreases tokens@.len() - index, 4nat,
{
    if !(tok_is(tokens, index, TokenType::Char) || tok_is(tokens, index, TokenType::Letter)) {
        return (None, index);
    }
    let ghost t = tokens@;
    let ghost has = exists|n: nat| literal_word_at(t, index as int, n);
    let ghost n: nat = if has { choose|n: nat| literal_word_at(t, index as int, n) } else { 0 };
    let mut result = inner(TokenType::ParamWord);
    let ghost r0 = result;
    let wl = leaf(tokens[index].val.clone(), TokenType::Word);
    result.children.push(wl);
    proof {
        lemma_children_view_push(r0, result, wl);
        assert(children_view(r0, 0) =~= Seq::<NodeView>::empty());
        assert(node_view(*wl) =~= leaf_view(TokenType::Word, t[index as int].val@));
        assert(children_view(result, 1) =~= seq![leaf_view(TokenType::Word, t[index as int].val@)]);
        assert(result.data@ =~= Seq::<char>::empty());
    }
    let mut i = index + 1;
    if tok_is(tokens, i, TokenType::Lpara) {
        assert(has ==> n > 0);
        let (e, j) = a_exp(tokens, i + 1);
        proof {
            if has {
                assert(t[index + 2 + 2 * 0].toktype == TokenType::Number || t[index + 2 + 2 * 0].toktype == TokenType::Letter);
                if n > 1 {
                    assert(t[index + 3 + 2 * 0].toktype == TokenType::Char);
                    assert(t[index + 3 + 2 * 0].val@ == seq![',']);
                    assert(seq![','] != seq!['+'] && seq![','] != seq!['-'] && seq![','] != seq!['*']
                        && seq![','] != seq!['/']) by {
                        assert(seq![','][0] == ',');
                    }
                } else {
                    assert(t[index + 1 + 2 * n].toktype == TokenType::Rpara);
                }
                assert(atom_at(t, index + 2));
                assert(no_op_at(t, index + 3));
            }
        }
        match e {
            Some(e) => {
                let ghost ev = node_view(*e);
                let pn = param_node(e);
                let ghost r1 = result;
                result.children.push(pn);
                proof {
                    lemma_children_view_push(r1, result, pn);
                    assert(children_view(result, 2) =~= seq![leaf_view(TokenType::Word, t[index as int].val@), param_view(ev)]);
                    assert(g_sum(t, index + 2) == Some((ev, j as int)));
                }
                i = j;
            },
            None => return (None, index),
        }
        while char_tok_is(tokens, i, ',')
            invariant
                index < i <= tokens@.len(),
                t == tokens@,
                result.data@.len() == 0,
                g_pword(t, index as int) == g_params_tail(t, i as int, children_view(result, result.children@.len() as int)),
                result.node_type == TokenType::ParamWord,
                result.children@.len() >= 2,
                has ==> literal_word_at(t, index as int, n),
                has == (exists|n: nat| literal_word_at(t, index as int, n)),
                has ==> result.children@.len() - 1 <= n,
                has ==> i == index + 1 + 2 * (result.children@.len() - 1),
                has ==> result.children@[0].data@ == t[index as int].val@,
                has ==> forall|k: int| 0 <= k < result.children@.len() - 1 ==> {
                    &&& (#[trigger] result.children@[k + 1]).node_type == TokenType::Param
                    &&& result.children@[k + 1].children@.len() == 1
                    &&& leaf_sum(*result.children@[k + 1].children@[0], t[index + 2 + 2 * k].val@)
                },
            decreases tokens@.len() - i,
        {
            let ghost c = result.children@.len() - 1;
            proof {
                if has {
                    if c == n {
                        assert(t[index + 1 + 2 * n].toktype == TokenType::Rpara);
                    }
                    assert(c < n);
                    assert(t[index + 2 + 2 * c].toktype == TokenType::Number || t[index + 2 + 2 * c].toktype == TokenType::Letter);
                    if c + 1 < n {
                        assert(t[index + 3 + 2 * c].toktype == TokenType::Char);
                        assert(t[index + 3 + 2 * c].val@ == seq![',']);
                        assert(seq![','] != seq!['+'] && seq![','] != seq!['-'] && seq![','] != seq!['*']
                            && seq![','] != seq!['/']) by {
                            assert(seq![','][0] == ',');
                        }
                    } else {
                        assert(t[index + 1 + 2 * n].toktype == TokenType::Rpara);
                    }
                    assert(atom_at(t, index + 2 + 2 * c));
                    assert(no_op_at(t, index + 3 + 2 * c));
                }
            }
            let (e, j) = a_exp(tokens, i + 1);
            match e {
                Some(e) => {
                    let ghost before = result.children@;
                    let pn = param_node(e);
                    let ghost r2 = result;
                    result.children.push(pn);
                    proof {
                        lemma_children_view_push(r2, result, pn);
                    }
                    i = j;
                    proof {
                        if has {
                            assert forall|k: int| 0 <= k < result.children@.len() - 1 implies {
                                &&& (#[trigger] result.children@[k + 1]).node_type == TokenType::Param
                                &&& result.children@[k + 1].children@.len() == 1
                                &&& leaf_sum(*result.children@[k + 1].children@[0], t[index + 2 + 2 * k].val@)
                            } by {
                                if k < c {
                                    assert(result.children@[k + 1] == before[k + 1]);
                                }
                            }
                        }
                    }
                },
                None => {
                    proof {
                        assert(!has);
                        assert forall|m: nat| !literal_word_at(tokens@, index as int, m) by {
                            if literal_word_at(tokens@, index as int, m) {
                                assert(literal_word_at(t, index as int, m));
                                assert(exists|n: nat| literal_word_at(t, index as int, n));
                            }
                        }
                    }
                    return (None, index);
                },
            }
        }
        proof {
            if has {
                let c = result.children@.len() - 1;
                if c < n {
                    if c >= 1 {
                        let k = c - 1;
                        assert(t[index + 3 + 2 * k].toktype == TokenType::Char);
                    }
                }
                assert(c == n);
            }
        }
        if !tok_is(tokens, i, TokenType::Rpara) {
            return (None, index);
        }
        proof {
            assert(result.data@ =~= Seq::<char>::empty());
            assert(g_pword(t, index as int) == Some((node_view(result), i + 1)));
        }
        i += 1;
    } else {
        proof {
            if has && n > 0 {
                assert(t[index + 1].toktype == TokenType::Lpara);
            }
            assert(node_view(result) == (NodeView { kind: TokenType::ParamWord, data: Seq::empty(),
                children: seq![leaf_view(TokenType::Word, t[index as int].val@)] }));
        }
    }
    let r = Box::new(result);
    proof {
        if has {
            assert(group_node(*r, t, index as int, n));
        }
        assert forall|m: nat| literal_word_at(t, index as int, m) implies m == n by {
            lemma_word_count_unique(t, index as int, m, n);
        }
    }
    (Some(r), i)
}

/// Probability: `'@' Number`.
fn prob(tokens: &Vec<Token>, index: usize) -> (r: AstRet)
    requires
        index <= tokens@.len(),
    ensures
        advances(tokens@.len() as int, index as int, r),
        kind_is(r, TokenType::Prob),
        r.0 is Some ==> index + 1 < tokens@.len() && r.0->Some_0.data == tokens@[index + 1].val,
        !(index < tokens@.len() && tokens@[index as int].toktype == TokenType::Psep) ==> r.0 is None,
        index + 1 < tokens@.len() && tokens@[index as int].toktype == TokenType::Psep
            && tokens@[index + 1].toktype == TokenType::Number ==> r.0 is Some && r.1 == index + 2,
        parsed_as(r, g_prob(tokens@, index as int)),
{
    if !tok_is(tokens, index, TokenType::Psep) || !tok_is(tokens, index + 1, TokenType::Number) {
        return (None, index);
    }
    let n = leaf(tokens[index + 1].val.clone(), TokenType::Prob);
    assert(node_view(*n) =~= leaf_view(TokenType::Prob, tokens@[index + 1].val@));
    (Some(n), index + 2)
}

/// Word: one or more letters, joined.
fn word(tokens: &Vec<Token>, index: usize) -> (r: AstRet)
    requires
        index <= tokens@.len(),
    ensures
        advances(tokens@.len() as int, index as int, r),
        kind_is(r, TokenType::Word),
        r.0 is Some ==> r.0->Some_0.children@.len() == 0,
        atom_at(tokens@, index as int) && !number_at(tokens@, index as int) ==> r.0 is Some && r.1 == index + 1
            && r.0->Some_0.data@ == tokens@[index as int].val@,
        !(index < tokens@.len() && tokens@[index as int].toktype == TokenType::Letter) ==> r.0 is None,
        r.0 is Some ==> r.0->Some_0.data@ == concat_vals(tokens@, index as int, r.1 as int)
            && !(r.1 < tokens@.len() && tokens@[r.1 as int].toktype == TokenType::Letter)
            && forall|k: int| index <= k < r.1 ==> (#[trigger] tokens@[k]).toktype == TokenType::Letter,
        (index < tokens@.len() && tokens@[index as int].toktype == TokenType::Letter) ==> r.0 is Some,
{
    let mut text: Vec<char> = Vec::new();
    let mut i = index;
    while tok_is(tokens, i, TokenType::Letter)
        invariant
            index <= i <= tokens@.len(),
            i == index ==> text@.len() == 0,
            i == index + 1 ==> text@ == tokens@[index as int].val@,
            atom_at(tokens@, index as int) && !number_at(tokens@, index as int) ==> i <= index + 1,
            text@ == concat_vals(tokens@, index as int, i as int),
            !(index < tokens@.len() && tokens@[index as int].toktype == TokenType::Letter) ==> i == index,
            forall|k: int| index <= k < i ==> (#[trigger] tokens@[k]).toktype == TokenType::Letter,
        decreases tokens@.len() - i,
    {
        assert(i == index ==> text@ + tokens@[i as int].val@ =~= tokens@[index as int].val@);
        let mut cs = chars_of_string(&tokens[i].val);
        text.append(&mut cs);
        i += 1;
    }
    if i > index {
        (Some(leaf(string_of(&text), TokenType::Word)), i)
    } else {
        (None, index)
    }
}

/// A bare bracket glyph, `[` or `]`, as a word without parameters.
fn bracket_word(tokens: &Vec<Token>, index: usize) -> (r: AstRet)
    requires
        index <= tokens@.len(),
    ensures
        advances(tokens@.len() as int, index as int, r),
        kind_is(r, TokenType::ParamWord),
        (index < tokens@.len() && (tokens@[index as int].toktype == TokenType::Lpsep
            || tokens@[index as int].toktype == TokenType::Rpsep)) ==> r.0 is Some && r.1 == index + 1
            && group_node(*r.0->Some_0, tokens@, index as int, 0),
        !(index < tokens@.len() && (tokens@[index as int].toktype == TokenType::Lpsep
            || tokens@[index as int].toktype == TokenType::Rpsep)) ==> r.0 is None,
        parsed_as(r, g_bracket(tokens@, index as int)),
{
    if !(tok_is(tokens, index, TokenType::Lpsep) || tok_is(tokens, index, TokenType::Rpsep)) {
        return (None, index);
    }
    let mut result = inner(TokenType::ParamWord);
    let ghost r0 = result;
    let wl = leaf(tokens[index].val.clone(), TokenType::Word);
    result.children.push(wl);
    proof {
        lemma_children_view_push(r0, result, wl);
        assert(children_view(r0, 0) =~= Seq::<NodeView>::empty());
        assert(node_view(*wl) =~= leaf_view(TokenType::Word, tokens@[index as int].val@));
        assert(children_view(result, 1) =~= seq![leaf_view(TokenType::Word, tokens@[index as int].val@)]);
        assert(result.data@ =~= Seq::<char>::empty());
    }
    (Some(Box::new(result)), index + 1)
}

/// Pattern: one or more parametric words or bracket glyphs. On tokens that
/// are literal words to the end, it reads them all, one node per word.
pub fn pat(tokens: &Vec<Token>, index: usize) -> (r: AstRet)
    requires
        index <= tokens@.len(),
    ensures
        advances(tokens@.len() as int, index as int, r),
        kind_is(r, TokenType::Pat),
        r.0 is Some ==> forall|k: int| 0 <= k < r.0->Some_0.children@.len()
            ==> (#[trigger] r.0->Some_0.children@[k]).node_type == TokenType::ParamWord,
        !glyph_start(tokens@, index as int) ==> r.0 is None,
        parsed_as(r, g_pat(tokens@, index as int)),
        forall|ns: Seq<nat>| ns.len() > 0 && literal_groups(tokens@, index as int, ns) ==> {
            &&& r.0 is Some
            &&& r.1 == group_start(index as int, ns, ns.len() as int)
            &&& r.0->Some_0.children@.len() == ns.len()
            &&& forall|k: int| 0 <= k < ns.len() ==> group_node(
                *(#[trigger] r.0->Some_0.children@[k]), tokens@, group_start(index as int, ns, k), ns[k])
        },
{
    let ghost t = tokens@;
    let ghost has = exists|ns: Seq<nat>| ns.len() > 0 && literal_groups(t, index as int, ns);
    let ghost ns0: Seq<nat> = if has { choose|ns: Seq<nat>| ns.len() > 0 && literal_groups(t, index as int, ns) } else { Seq::empty() };
    let mut result = inner(TokenType::Pat);
    let mut i = index;
    loop
        invariant
            index <= i <= tokens@.len(),
            t == tokens@,
            result.node_type == TokenType::Pat,
            result.data@.len() == 0,
            i == index <==> result.children@.len() == 0,
            forall|k: int| 0 <= k < result.children@.len()
                ==> (#[trigger] result.children@[k]).node_type == TokenType::ParamWord,
            has ==> ns0.len() > 0 && literal_groups(t, index as int, ns0),
            has ==> result.children@.len() <= ns0.len(),
            has ==> i == group_start(index as int, ns0, result.children@.len() as int),
            has ==> forall|k: int| 0 <= k < result.children@.len() ==> group_node(
                *(#[trigger] result.children@[k]), t, group_start(index as int, ns0, k), ns0[k]),
            !glyph_start(t, index as int) ==> i == index,
            g_pat(t, index as int) == g_pat_tail(t, i as int, children_view(result, result.children@.len() as int)),
        ensures
            !glyph_start(t, index as int) ==> i == index,
            g_pat_tail(t, i as int, children_view(result, result.children@.len() as int)) is None
                <==> result.children@.len() == 0,
            result.children@.len() > 0 ==> g_pat(t, index as int) == Some((node_view(result), i as int)),
            index <= i <= tokens@.len(),
            i == index <==> result.children@.len() == 0,
            result.node_type == TokenType::Pat,
            forall|k: int| 0 <= k < result.children@.len()
                ==> (#[trigger] result.children@[k]).node_type == TokenType::ParamWord,
            has ==> result.children@.len() == ns0.len(),
            has ==> i == group_start(index as int, ns0, result.children@.len() as int),
            has ==> ns0.len() > 0 && literal_groups(t, index as int, ns0),
            has ==> forall|k: int| 0 <= k < result.children@.len() ==> group_node(
                *(#[trigger] result.children@[k]), t, group_start(index as int, ns0, k), ns0[k]),
        decreases tokens@.len() - i,
    {
        let ghost c = result.children@.len() as int;
        proof {
            if has && c < ns0.len() {
                assert(literal_word_at(t, group_start(index as int, ns0, c), ns0[c]));
            }
            if has && c == ns0.len() {
                assert(!glyph_start(t, i as int));
            }
        }
        let (w, j) = p_word(tokens, i);
        let (w, j) = match w {
            Some(w) => (Some(w), j),
            None => bracket_word(tokens, i),
        };
        match w {
            Some(w) => {
                let ghost before = result.children@;
                let ghost r1 = result;
                result.children.push(w);
                proof {
                    lemma_children_view_push(r1, result, w);
                    if has {
                        assert(c < ns0.len());
                        assert(group_start(index as int, ns0, c + 1) == group_start(index as int, ns0, c) + group_len(ns0[c]));
                        assert forall|k: int| 0 <= k < result.children@.len() implies group_node(
                            *(#[trigger] result.children@[k]), t, group_start(index as int, ns0, k), ns0[k]) by {
                            if k < c {
                                assert(result.children@[k] == before[k]);
                            }
                        }
                    }
                }
                i = j;
            },
            None => {
                proof {
                    if has {
                        assert(c == ns0.len());
                    }
                    assert(g_word_or_bracket(t, i as int) is None);
                    assert(children_view(result, result.children@.len() as int).len() == result.children@.len()) by {
                        lemma_children_view_len(result, result.children@.len() as int);
                    }
                    assert(result.data@ =~= Seq::<char>::empty());
                }
                break;
            },
        }
    }
    proof {
        assert forall|ns: Seq<nat>| ns.len() > 0 && literal_groups(t, index as int, ns) implies ns == ns0 by {
            assert(has);
            lemma_groups_unique(t, index as int, ns, ns0);
        }
        if has {
            assert(i > index) by {
                assert(result.children@.len() == ns0.len());
            }
        }
    }
    if i > index {
        (Some(Box::new(result)), i)
    } else {
        (None, index)
    }
}

/// Directive parameter: everything up to the next space.
fn param(tokens: &Vec<Token>, index: usize) -> (r: AstRet)
    requires
        index <= tokens@.len(),
    ensures
        advances(tokens@.len() as int, index as int, r),
        kind_is(r, TokenType::Param),
        r.0 is Some <==> nonws_end(tokens@, index as int) > index,
        r.0 is Some ==> r.1 == nonws_end(tokens@, index as int)
            && r.0->Some_0.data@ == concat_vals(tokens@, index as int, r.1 as int),
{
    let mut text: Vec<char> = Vec::new();
    let mut i = index;
    while i < tokens.len() && tokens[i].toktype != TokenType::Ws
        invariant
            index <= i <= tokens@.len(),
            text@ == concat_vals(tokens@, index as int, i as int),
            nonws_end(tokens@, i as int) == nonws_end(tokens@, index as int),
        decreases tokens@.len() - i,
    {
        let mut cs = chars_of_string(&tokens[i].val);
        text.append(&mut cs);
        i += 1;
    }
    if i > index {
        (Some(leaf(string_of(&text), TokenType::Param)), i)
    } else {
        (None, index)
    }
}

/// End of the run of tokens from `i` that are not spaces.
pub open spec fn nonws_end(t: Seq<Token>, i: int) -> int
    decreases t.len() - i,
{
    if 0 <= i < t.len() && t[i].toktype != TokenType::Ws { nonws_end(t, i + 1) } else { i }
}

/// End of the run of letter tokens from `i`.
pub open spec fn letters_end(t: Seq<Token>, i: int) -> int
    decreases t.len() - i,
{
    if 0 <= i < t.len() && t[i].toktype == TokenType::Letter { letters_end(t, i + 1) } else { i }
}

/// Parameters of a directive from `i`: each space followed by a
/// non-empty run of other tokens gives the run's text; the first space
/// not so followed, or any other token, ends them.
pub open spec fn directive_params(t: Seq<Token>, i: int) -> Seq<Seq<char>>
    decreases t.len() - i,
{
    if 0 <= i < t.len() && t[i].toktype == TokenType::Ws && i + 1 < nonws_end(t, i + 1) <= t.len() {
        seq![concat_vals(t, i + 1, nonws_end(t, i + 1))] + directive_params(t, nonws_end(t, i + 1))
    } else {
        Seq::empty()
    }
}

pub open spec fn child_texts(n: AstNode) -> Seq<Seq<char>> {
    n.children@.map_values(|c: Box<AstNode>| c.data@)
}

proof fn lemma_letters_end(t: Seq<Token>, i: int, j: int)
    requires
        0 <= i <= j <= t.len(),
        forall|k: int| i <= k < j ==> (#[trigger] t[k]).toktype == TokenType::Letter,
        !(j < t.len() && t[j].toktype == TokenType::Letter),
    ensures
        letters_end(t, i) == j,
    decreases j - i,
{
    if i < j {
        lemma_letters_end(t, i + 1, j);
    }
}

proof fn lemma_nonws_end_ge(t: Seq<Token>, i: int)
    requires
        0 <= i <= t.len(),
    ensures
        i <= nonws_end(t, i) <= t.len(),
    decreases t.len() - i,
{
    if i < t.len() && t[i].toktype != TokenType::Ws {
        lemma_nonws_end_ge(t, i + 1);
    }
}

/// Directive: `'#' word (' ' param)*`.
fn preproc(tokens: &Vec<Token>, index: usize) -> (r: AstRet)
    requires
        index <= tokens@.len(),
    ensures
        advances(tokens@.len() as int, index as int, r),
        kind_is(r, TokenType::Preproc),
        !(index < tokens@.len() && tokens@[index as int].toktype == TokenType::PreprocStart) ==> r.0 is None,
        index + 1 < tokens@.len() && tokens@[index as int].toktype == TokenType::PreprocStart
            && tokens@[index + 1].toktype == TokenType::Letter ==> r.0 is Some
            && r.0->Some_0.data@ == concat_vals(tokens@, index + 1, letters_end(tokens@, index + 1))
            && child_texts(*r.0->Some_0) == directive_params(tokens@, letters_end(tokens@, index + 1)),
{
    if !tok_is(tokens, index, TokenType::PreprocStart) {
        return (None, index);
    }
    let (w, j) = word(tokens, index + 1);
    let mut result = match w {
        Some(w) => w,
        None => return (None, index),
    };
    result.node_type = TokenType::Preproc;
    proof {
        lemma_letters_end(tokens@, index + 1, j as int);
        assert(child_texts(*result) =~= Seq::<Seq<char>>::empty());
    }
    let mut i = j;
    loop
        invariant
            index < i <= tokens@.len(),
            j <= i,
            result.node_type == TokenType::Preproc,
            result.data@ == concat_vals(tokens@, index + 1, j as int),
            child_texts(*result) + directive_params(tokens@, i as int) == directive_params(tokens@, j as int),
        ensures
            index < i <= tokens@.len(),
            result.node_type == TokenType::Preproc,
            result.data@ == concat_vals(tokens@, index + 1, j as int),
            child_texts(*result) == directive_params(tokens@, j as int),
        decreases tokens@.len() - i,
    {
        if !tok_is(tokens, i, TokenType::Ws) {
            assert(directive_params(tokens@, i as int) =~= Seq::<Seq<char>>::empty());
            assert(child_texts(*result) + Seq::<Seq<char>>::empty() =~= child_texts(*result));
            break;
        }
        let (p, k) = param(tokens, i + 1);
        proof {
            lemma_nonws_end_ge(tokens@, i + 1);
        }
        match p {
            Some(p) => {
                let ghost before = child_texts(*result);
                result.children.push(p);
                assert(child_texts(*result) =~= before.push(p.data@));
                assert(child_texts(*result) + directive_params(tokens@, k as int)
                    =~= before + directive_params(tokens@, i as int));
                i = k;
            },
            None => {
                assert(directive_params(tokens@, i as int) =~= Seq::<Seq<char>>::empty());
                assert(child_texts(*result) + Seq::<Seq<char>>::empty() =~= child_texts(*result));
                break;
            },
        }
    }
    (Some(result), i)
}

/// One-character operator token `c`, read as a node of kind `t`.
fn op_tok(tokens: &Vec<Token>, index: usize, c: char, t: TokenType) -> (r: AstRet)
    requires
        index <= tokens@.len(),
    ensures
        advances(tokens@.len() as int, index as int, r),
        kind_is(r, t),
        r.0 is Some ==> r.0->Some_0.data@ == seq![c],
        r.0 is Some <==> (index < tokens@.len() && tokens@[index as int].toktype == TokenType::Char
            && tokens@[index as int].val@ == seq![c]),
        r.0 is Some ==> r.1 == index + 1 && node_view(*r.0->Some_0) == leaf_view(t, seq![c]),
{
    if char_tok_is(tokens, index, c) {
        let n = leaf(string_of_char(c), t);
        assert(node_view(*n) =~= leaf_view(t, seq![c]));
        (Some(n), index + 1)
    } else {
        (None, index)
    }
}

/// Condition: `['!'] cond_and ('|' cond_and)*`.
fn cond(tokens: &Vec<Token>, index: usize) -> (r: AstRet)
    requires
        index <= tokens@.len(),
    ensures
        advances(tokens@.len() as int, index as int, r),
        r.0 is Some ==> r.0->Some_0.node_type == TokenType::Cond || r.0->Some_0.node_type == TokenType::Not,
        forall|e: int| #[trigger] simple_cond_at(tokens@, index as int, e) ==> r.0 is Some && r.1 == e
            && simple_cond_node(*r.0->Some_0, tokens@, index as int),
        parsed_as(r, g_cond(tokens@, index as int)),
    decreases tokens@.len() - index, 9nat,
{
    let ghost t = tokens@;
    proof {
        let t = tokens@;
        let i = index as int;
        if letters_are(t, i, true_word()) || letters_are(t, i, false_word()) {
            assert(t[i + 0].toktype == TokenType::Letter);
        }
    }
    let mut i = index;
    let not = char_tok_is(tokens, i, '!');
    if not {
        i += 1;
    }
    let mut ret = inner(TokenType::Cond);
    let (a, j) = cond_and(tokens, i);
    let ghost first = a;
    let ghost j0 = j;
    match a {
        Some(a) => {
            let ghost r0 = ret;
            ret.children.push(a);
            assert(ret.children@ =~= seq![a]);
            proof {
                lemma_children_view_push(r0, ret, a);
                assert(children_view(r0, 0) =~= Seq::<NodeView>::empty());
            }
            i = j;
        },
        None => return (None, index),
    }
    while char_tok_is(tokens, i, '|')
        invariant
            index < i <= tokens@.len(),
            ret.node_type == TokenType::Cond,
            ret.data@.len() == 0,
            t == tokens@,
            not == char_at_tok(t, index as int, '!'),
            g_cond(t, index as int) == (match g_or_tail(t, i as int, children_view(ret, ret.children@.len() as int)) {
                None => None::<(NodeView, int)>,
                Some((c, k)) => if not {
                    Some((NodeView { kind: TokenType::Not, data: seq!['!'], children: seq![c] }, k))
                } else {
                    Some((c, k))
                },
            }),
            j0 <= i,
            first is Some,
            i == j0 ==> ret.children@ == seq![first->Some_0],
            simple_cond_at(tokens@, index as int, simple_bool_end(tokens@, index as int)->Some_0)
                && simple_bool_end(tokens@, index as int) is Some ==> !not && i == j0
                && j0 == simple_bool_end(tokens@, index as int)->Some_0,
        decreases tokens@.len() - i,
    {
        let (a, j) = cond_and(tokens, i + 1);
        match a {
            Some(a) => {
                let ghost r1 = ret;
                ret.children.push(a);
                proof {
                    lemma_children_view_push(r1, ret, a);
                }
                i = j;
            },
            None => return (None, index),
        }
    }
    proof {
        assert(ret.data@ =~= Seq::<char>::empty());
        assert(node_view(ret) == (NodeView { kind: TokenType::Cond, data: Seq::empty(),
            children: children_view(ret, ret.children@.len() as int) }));
    }
    if not {
        let mut n = inner(TokenType::Not);
        n.data = string_of_char('!');
        let ghost n0 = n;
        let br = Box::new(ret);
        n.children.push(br);
        proof {
            lemma_children_view_push(n0, n, br);
            assert(children_view(n0, 0) =~= Seq::<NodeView>::empty());
            assert(children_view(n, 1) =~= seq![node_view(*br)]);
        }
        (Some(Box::new(n)), i)
    } else {
        (Some(Box::new(ret)), i)
    }
}

/// Conjunction: `cond_para ('&' cond_para)*`.
fn cond_and(tokens: &Vec<Token>, index: usize) -> (r: AstRet)
    requires
        index <= tokens@.len(),
    ensures
        advances(tokens@.len() as int, index as int, r),
        simple_bool_end(tokens@, index as int) is Some
            && !char_at_tok(tokens@, simple_bool_end(tokens@, index as int)->Some_0, '&') ==> r.0 is Some
            && r.1 == simple_bool_end(tokens@, index as int)->Some_0
            && r.0->Some_0.node_type == TokenType::CondAnd
            && r.0->Some_0.children@.len() == 1
            && simple_bool_node(*r.0->Some_0.children@[0], tokens@, index as int),
        parsed_as(r, g_cond_and(tokens@, index as int)),
    decreases tokens@.len() - index, 8nat,
{
    let ghost t = tokens@;
    let mut ret = inner(TokenType::CondAnd);
    let (p, j) = cond_para(tokens, index);
    let ghost first = p;
    let ghost j0 = j;
    let mut i = match p {
        Some(p) => {
            let ghost r0 = ret;
            ret.children.push(p);
            assert(ret.children@ =~= seq![p]);
            proof {
                lemma_children_view_push(r0, ret, p);
                assert(children_view(r0, 0) =~= Seq::<NodeView>::empty());
            }
            j
        },
        None => return (None, index),
    };
    while char_tok_is(tokens, i, '&')
        invariant
            index < i <= tokens@.len(),
            j0 <= i,
            first is Some,
            ret.node_type == TokenType::CondAnd,
            ret.data@.len() == 0,
            t == tokens@,
            g_cond_and(t, index as int) == g_and_tail(t, i as int, children_view(ret, ret.children@.len() as int)),
            i == j0 ==> ret.children@ == seq![first->Some_0],
            simple_bool_end(tokens@, index as int) is Some
                && !char_at_tok(tokens@, simple_bool_end(tokens@, index as int)->Some_0, '&') ==> i == j0
                && j0 == simple_bool_end(tokens@, index as int)->Some_0,
        decreases tokens@.len() - i,
    {
        let (p, j) = cond_para(tokens, i + 1);
        match p {
            Some(p) => {
                let ghost r1 = ret;
                ret.children.push(p);
                proof {
                    lemma_children_view_push(r1, ret, p);
                }
                i = j;
            },
            None => return (None, index),
        }
    }
    proof {
        assert(ret.data@ =~= Seq::<char>::empty());
    }
    (Some(Box::new(ret)), i)
}

/// Parenthesised condition, or a boolean: `'(' cond ')' | cond_bool`.
fn cond_para(tokens: &Vec<Token>, index: usize) -> (r: AstRet)
    requires
        index <= tokens@.len(),
    ensures
        advances(tokens@.len() as int, index as int, r),
        simple_bool_end(tokens@, index as int) is Some ==> r.0 is Some
            && r.1 == simple_bool_end(tokens@, index as int)->Some_0
            && simple_bool_node(*r.0->Some_0, tokens@, index as int),
        parsed_as(r, g_cond_para(tokens@, index as int)),
    decreases tokens@.len() - index, 7nat,
{
    proof {
        let t = tokens@;
        let i = index as int;
        if letters_are(t, i, true_word()) || letters_are(t, i, false_word()) {
            assert(t[i + 0].toktype == TokenType::Letter);
        }
    }
    if tok_is(tokens, index, TokenType::Lpara) {
        let (c, j) = cond(tokens, index + 1);
        match c {
            Some(c) => {
                if tok_is(tokens, j, TokenType::Rpara) {
                    return (Some(c), j + 1);
                }
                (None, index)
            },
            None => cond_bool(tokens, index),
        }
    } else {
        cond_bool(tokens, index)
    }
}

/// Boolean: `'true' | 'false' | comp_exp`.
fn cond_bool(tokens: &Vec<Token>, index: usize) -> (r: AstRet)
    requires
        index <= tokens@.len(),
    ensures
        advances(tokens@.len() as int, index as int, r),
        simple_bool_end(tokens@, index as int) is Some ==> r.0 is Some
            && r.1 == simple_bool_end(tokens@, index as int)->Some_0
            && simple_bool_node(*r.0->Some_0, tokens@, index as int),
        parsed_as(r, g_cond_bool(tokens@, index as int)),
    decreases tokens@.len() - index, 6nat,
{
    proof {
        reveal_with_fuel(concat_vals, 6);
        let t = tokens@;
        let i = index as int;
        if letters_are(t, i, true_word()) {
            assert(t[i + 0].val@ == seq!['t']);
            assert(t[i + 1].val@ == seq!['r']);
            assert(t[i + 2].val@ == seq!['u']);
            assert(t[i + 3].val@ == seq!['e']);
            assert(t[i + 0].toktype == TokenType::Letter);
            assert(concat_vals(t, i, i + 4) =~= true_word());
        } else if letters_are(t, i, false_word()) {
            assert(t[i + 0].val@ == seq!['f']);
            assert(t[i + 1].val@ == seq!['a']);
            assert(t[i + 2].val@ == seq!['l']);
            assert(t[i + 3].val@ == seq!['s']);
            assert(t[i + 4].val@ == seq!['e']);
            assert(t[i + 0].toktype == TokenType::Letter);
            assert(concat_vals(t, i, i + 5) =~= false_word());
        }
    }
    let (w, j) = word(tokens, index);
    match w {
        Some(mut w) => {
            let cs = chars_of_string(&w.data);
            let is_true = cs.len() == 4 && cs[0] == 't' && cs[1] == 'r' && cs[2] == 'u' && cs[3] == 'e';
            let is_false = cs.len() == 5 && cs[0] == 'f' && cs[1] == 'a' && cs[2] == 'l' && cs[3] == 's'
                && cs[4] == 'e';
            proof {
                if is_true {
                    assert(cs@ =~= true_word());
                }
                if is_false {
                    assert(cs@ =~= false_word());
                }
                if cs@ == true_word() {
                    assert(cs@[0] == 't' && cs@[1] == 'r' && cs@[2] == 'u' && cs@[3] == 'e');
                }
                if cs@ == false_word() {
                    assert(cs@[0] == 'f' && cs@[1] == 'a' && cs@[2] == 'l' && cs@[3] == 's' && cs@[4] == 'e');
                }
            }
            proof {
                let t = tokens@;
                let i = index as int;
                if letters_are(t, i, true_word()) {
                    assert(t[i].toktype == TokenType::Letter);
                    if j < index + 4 {
                        assert(t[i + (j - i)].toktype == TokenType::Letter);
                    }
                    if j > index + 4 {
                        assert(t[i + 4].toktype == TokenType::Letter);
                    }
                    assert(j == index + 4);
                }
                if letters_are(t, i, false_word()) {
                    if j < index + 5 {
                        assert(t[i + (j - i)].toktype == TokenType::Letter);
                    }
                    if j > index + 5 {
                        assert(t[i + 5].toktype == TokenType::Letter);
                    }
                    assert(j == index + 5);
                }
            }
            proof {
                lemma_letters_end(tokens@, index as int, j as int);
            }
            if is_true || is_false {
                let ghost w0 = *w;
                w.node_type = TokenType::CondBool;
                proof {
                    assert(node_view(*w) == leaf_view(TokenType::CondBool, concat_vals(tokens@, index as int, j as int))) by {
                        assert(node_view(*w).children =~= Seq::<NodeView>::empty());
                    }
                    let t = tokens@;
                    let i = index as int;
                    if !letters_are(t, i, true_word()) && !letters_are(t, i, false_word()) && simple_comp_at(t, i) {
                        assert(t[i].toktype == TokenType::Letter);
                        assert(j == index + 1);
                    }
                    if letters_are(t, i, true_word()) {
                        assert(j == index + 4) by {
                            if j < index + 4 {
                                assert(t[i + (j - i)].toktype == TokenType::Letter);
                            }
                            if j > index + 4 {
                                assert(t[i + 4].toktype == TokenType::Letter);
                            }
                        }
                    }
                    if letters_are(t, i, false_word()) {
                        assert(j == index + 5) by {
                            if j < index + 5 {
                                assert(t[i + (j - i)].toktype == TokenType::Letter);
                            }
                            if j > index + 5 {
                                assert(t[i + 5].toktype == TokenType::Letter);
                            }
                        }
                    }
                }
                return (Some(w), j);
            }
        },
        None => {},
    }
    comp_exp(tokens, index)
}

/// Comparison: `a_exp op a_exp` with one of `= != < > <= >=`.
fn comp_exp(tokens: &Vec<Token>, index: usize) -> (r: AstRet)
    requires
        index <= tokens@.len(),
    ensures
        advances(tokens@.len() as int, index as int, r),
        kind_is(r, TokenType::CompExp),
        simple_comp_at(tokens@, index as int) ==> r.0 is Some && r.1 == index + 3 && r.0->Some_0.data@ == tokens@[index + 1].val@
            && r.0->Some_0.children@.len() == 2 && leaf_sum(*r.0->Some_0.children@[0], tokens@[index as int].val@)
            && leaf_sum(*r.0->Some_0.children@[1], tokens@[index + 2].val@),
        parsed_as(r, g_comp(tokens@, index as int)),
    decreases tokens@.len() - index, 5nat,
{
    let mut res = inner(TokenType::CompExp);
    let (a, i) = a_exp(tokens, index);
    let ghost r0 = res;
    match a {
        Some(a) => {
            res.children.push(a);
            assert(res.children@ =~= seq![a]);
            proof {
                lemma_children_view_push(r0, res, a);
                assert(children_view(r0, 0) =~= Seq::<NodeView>::empty());
            }
        },
        None => return (None, index),
    }
    if !(tok_is(tokens, i, TokenType::CompOp) || tok_is(tokens, i, TokenType::Rsep) || tok_is(tokens, i, TokenType::Lsep)) {
        return (None, index);
    }
    let ghost r1 = res;
    res.data = tokens[i].val.clone();
    proof {
        crate::ast::lemma_children_view_same(r1, res, 1);
    }
    let (b, j) = a_exp(tokens, i + 1);
    match b {
        Some(b) => {
            let ghost c0 = res.children@;
            let ghost r2 = res;
            res.children.push(b);
            assert(res.children@[0] == c0[0]);
            proof {
                lemma_children_view_push(r2, res, b);
                assert(children_view(res, 2) =~= seq![node_view(*res.children@[0]), node_view(*b)]);
            }
        },
        None => return (None, index),
    }
    (Some(Box::new(res)), j)
}

/// Sum: `a_exp_mul (('+' | '-') a_exp_mul)*`.
fn a_exp(tokens: &Vec<Token>, index: usize) -> (r: AstRet)
    requires
        index <= tokens@.len(),
    ensures
        advances(tokens@.len() as int, index as int, r),
        kind_is(r, TokenType::Aexp),
        atom_at(tokens@, index as int) && no_op_at(tokens@, index + 1) ==> r.0 is Some && r.1 == index + 1
            && leaf_sum(*r.0->Some_0, tokens@[index as int].val@),
        parsed_as(r, g_sum(tokens@, index as int)),
    decreases tokens@.len() - index, 3nat,
{
    let ghost t = tokens@;
    let mut ret = inner(TokenType::Aexp);
    let (m, j) = a_exp_mul(tokens, index);
    let ghost first = m;
    let ghost j0 = j;
    let mut i = match m {
        Some(m) => {
            let ghost before = ret;
            ret.children.push(m);
            assert(ret.children@ =~= seq![m]);
            proof {
                lemma_children_view_push(before, ret, m);
                assert(children_view(before, 0) =~= Seq::<NodeView>::empty());
                assert(children_view(ret, 1) =~= seq![node_view(*m)]);
            }
            j
        },
        None => return (None, index),
    };
    loop
        invariant
            t == tokens@,
            index < i <= tokens@.len(),
            ret.node_type == TokenType::Aexp,
            ret.data@.len() == 0,
            i == j0 ==> ret.children@ == seq![first->Some_0],
            first is Some,
            j0 <= i,
            atom_at(tokens@, index as int) && no_op_at(tokens@, index + 1) ==> i == j0 && j0 == index + 1,
            g_sum(t, index as int) == g_sum_tail(t, i as int, children_view(ret, ret.children@.len() as int)),
        ensures
            index < i <= tokens@.len(),
            ret.node_type == TokenType::Aexp,
            ret.data@.len() == 0,
            i == j0 ==> ret.children@ == seq![first->Some_0],
            first is Some,
            atom_at(tokens@, index as int) && no_op_at(tokens@, index + 1) ==> i == j0 && j0 == index + 1,
            g_sum(t, index as int) == Some((node_view(ret), i as int)),
        decreases tokens@.len() - i,
    {
        let (op, k) = op_tok(tokens, i, '+', TokenType::Add);
        let (op, k) = match op {
            Some(op) => (Some(op), k),
            None => op_tok(tokens, i, '-', TokenType::Add),
        };
        let ghost acc = children_view(ret, ret.children@.len() as int);
        match op {
            Some(op) => {
                let ghost c = if char_at_tok(t, i as int, '+') { '+' } else { '-' };
                assert(op_char(t, i as int, '+', '-') == Some(c));
                assert(node_view(*op) == leaf_view(TokenType::Add, seq![c]));
                let ghost r0 = ret;
                ret.children.push(op);
                proof {
                    lemma_children_view_push(r0, ret, op);
                }
                let (m, j) = a_exp_mul(tokens, k);
                match m {
                    Some(m) => {
                        let ghost r1 = ret;
                        ret.children.push(m);
                        proof {
                            lemma_children_view_push(r1, ret, m);
                        }
                        i = j;
                    },
                    None => return (None, index),
                }
            },
            None => {
                assert(op_char(t, i as int, '+', '-') is None);
                assert(ret.data@ =~= Seq::<char>::empty());
                assert(node_view(ret) == (NodeView { kind: TokenType::Aexp, data: Seq::empty(), children: acc }));
                break;
            },
        }
    }
    (Some(Box::new(ret)), i)
}

/// Product: `a_para (('*' | '/') a_para)*`.
fn a_exp_mul(tokens: &Vec<Token>, index: usize) -> (r: AstRet)
    requires
        index <= tokens@.len(),
    ensures
        advances(tokens@.len() as int, index as int, r),
        kind_is(r, TokenType::AexpMul),
        atom_at(tokens@, index as int) && no_op_at(tokens@, index + 1) ==> r.0 is Some && r.1 == index + 1
            && leaf_product(*r.0->Some_0, tokens@[index as int].val@),
        parsed_as(r, g_prod(tokens@, index as int)),
    decreases tokens@.len() - index, 2nat,
{
    let ghost t = tokens@;
    let mut ret = inner(TokenType::AexpMul);
    let (m, j) = a_para(tokens, index);
    let ghost first = m;
    let ghost j0 = j;
    let mut i = match m {
        Some(m) => {
            let ghost before = ret;
            ret.children.push(m);
            assert(ret.children@ =~= seq![m]);
            proof {
                lemma_children_view_push(before, ret, m);
                assert(children_view(before, 0) =~= Seq::<NodeView>::empty());
                assert(children_view(ret, 1) =~= seq![node_view(*m)]);
            }
            j
        },
        None => return (None, index),
    };
    loop
        invariant
            t == tokens@,
            index < i <= tokens@.len(),
            ret.node_type == TokenType::AexpMul,
            ret.data@.len() == 0,
            i == j0 ==> ret.children@ == seq![first->Some_0],
            first is Some,
            j0 <= i,
            atom_at(tokens@, index as int) && no_op_at(tokens@, index + 1) ==> i == j0 && j0 == index + 1,
            g_prod(t, index as int) == g_prod_tail(t, i as int, children_view(ret, ret.children@.len() as int)),
        ensures
            index < i <= tokens@.len(),
            ret.node_type == TokenType::AexpMul,
            ret.data@.len() == 0,
            i == j0 ==> ret.children@ == seq![first->Some_0],
            first is Some,
            atom_at(tokens@, index as int) && no_op_at(tokens@, index + 1) ==> i == j0 && j0 == index + 1,
            g_prod(t, index as int) == Some((node_view(ret), i as int)),
        decreases tokens@.len() - i,
    {
        let (op, k) = op_tok(tokens, i, '*', TokenType::Mul);
        let (op, k) = match op {
            Some(op) => (Some(op), k),
            None => op_tok(tokens, i, '/', TokenType::Mul),
        };
        let ghost acc = children_view(ret, ret.children@.len() as int);
        match op {
            Some(op) => {
                let ghost c = if char_at_tok(t, i as int, '*') { '*' } else { '/' };
                assert(op_char(t, i as int, '*', '/') == Some(c));
                assert(node_view(*op) == leaf_view(TokenType::Mul, seq![c]));
                let ghost r0 = ret;
                ret.children.push(op);
                proof {
                    lemma_children_view_push(r0, ret, op);
                }
                let (m, j) = a_para(tokens, k);
                match m {
                    Some(m) => {
                        let ghost r1 = ret;
                        ret.children.push(m);
                        proof {
                            lemma_children_view_push(r1, ret, m);
                        }
                        i = j;
                    },
                    None => return (None, index),
                }
            },
            None => {
                assert(op_char(t, i as int, '*', '/') is None);
                assert(ret.data@ =~= Seq::<char>::empty());
                assert(node_view(ret) == (NodeView { kind: TokenType::AexpMul, data: Seq::empty(), children: acc }));
                break;
            },
        }
    }
    (Some(Box::new(ret)), i)
}

/// Factor: `'(' a_exp ')' | a_num`; a parenthesised sum is the only child
/// of its factor node.
fn a_para(tokens: &Vec<Token>, index: usize) -> (r: AstRet)
    requires
        index <= tokens@.len(),
    ensures
        advances(tokens@.len() as int, index as int, r),
        kind_is(r, TokenType::Apara),
        atom_at(tokens@, index as int) ==> r.0 is Some && r.1 == index + 1
            && leaf_factor(*r.0->Some_0, tokens@[index as int].val@),
        parsed_as(r, g_factor(tokens@, index as int)),
    decreases tokens@.len() - index, 1nat,
{
    if index >= tokens.len() {
        return (None, index);
    }
    if tokens[index].toktype != TokenType::Lpara {
        let (n, j) = a_num(tokens, index);
        match n {
            Some(mut n) => {
                let ghost before = *n;
                n.node_type = TokenType::Apara;
                proof {
                    crate::ast::lemma_children_view_same(before, *n, n.children@.len() as int);
                    assert(node_view(*n) == NodeView { kind: TokenType::Apara, ..node_view(before) });
                }
                (Some(n), j)
            },
            None => (None, index),
        }
    } else {
        let (e, j) = a_exp(tokens, index + 1);
        match e {
            Some(e) => {
                if !tok_is(tokens, j, TokenType::Rpara) {
                    return (None, index);
                }
                let mut n = inner(TokenType::Apara);
                let ghost before = n;
                n.children.push(e);
                proof {
                    lemma_children_view_push(before, n, e);
                    assert(children_view(before, 0) =~= Seq::<NodeView>::empty());
                    assert(n.data@ =~= Seq::<char>::empty());
                    assert(children_view(before, 0).push(node_view(*e)) =~= seq![node_view(*e)]);
                    assert(node_view(n) == (NodeView { kind: TokenType::Apara, data: Seq::empty(), children: seq![node_view(*e)] }));
                }
                (Some(Box::new(n)), j + 1)
            },
            None => (None, index),
        }
    }
}

/// Number or variable name.
fn a_num(tokens: &Vec<Token>, index: usize) -> (r: AstRet)
    requires
        index <= tokens@.len(),
    ensures
        advances(tokens@.len() as int, index as int, r),
        kind_is(r, TokenType::Anum),
        r.0 is Some ==> r.0->Some_0.children@.len() == 0,
        atom_at(tokens@, index as int) ==> r.0 is Some && r.1 == index + 1
            && r.0->Some_0.data@ == tokens@[index as int].val@,
        parsed_as(r, g_num(tokens@, index as int)),
{
    if tok_is(tokens, index, TokenType::Number) {
        let n = leaf(tokens[index].val.clone(), TokenType::Anum);
        assert(node_view(*n) =~= leaf_view(TokenType::Anum, tokens@[index as int].val@));
        return (Some(n), index + 1);
    }
    let (w, j) = word(tokens, index);
    match w {
        Some(mut w) => {
            w.node_type = TokenType::Anum;
            proof {
                lemma_letters_end(tokens@, index as int, j as int);
                assert(node_view(*w) =~= leaf_view(TokenType::Anum, concat_vals(tokens@, index as int, j as int)));
            }
            (Some(w), j)
        },
        None => (None, index),
    }
}

pub open spec fn opt_kind(present: bool, t: TokenType) -> Seq<TokenType> {
    if present { seq![t] } else { Seq::empty() }
}

/// Kinds of the children of a rule node: optional left context,
/// predecessor, optional right context, optional condition, optional
/// probability, replacement.
pub open spec fn rule_shape(kinds: Seq<TokenType>) -> bool {
    exists|l: bool, rc: bool, c: Option<TokenType>, p: bool|
        (c is Some ==> (c->Some_0 == TokenType::Cond || c->Some_0 == TokenType::Not))
        && kinds == opt_kind(l, TokenType::Lctx) + seq![TokenType::Pred] + opt_kind(rc, TokenType::Rctx)
            + (match c { Some(t) => seq![t], None => Seq::<TokenType>::empty() }) + opt_kind(p, TokenType::Prob)
            + seq![TokenType::Replacement]
}

pub open spec fn child_kinds(n: AstNode) -> Seq<TokenType> {
    n.children@.map_values(|c: Box<AstNode>| c.node_type)
}

/// Where the predecessor of a simple rule starts.
pub open spec fn pred_pos(index: int, ls: Seq<nat>) -> int {
    if ls.len() > 0 { group_start(index, ls, ls.len() as int) + 1 } else { index }
}

/// Where the arrow of a simple rule stands.
pub open spec fn arrow_pos(index: int, ls: Seq<nat>, pn: nat, rs: Seq<nat>) -> int {
    let q = pred_pos(index, ls) + group_len(pn);
    if rs.len() > 0 { group_start(q + 1, rs, rs.len() as int) } else { q }
}

/// End of the condition of a simple rule (the end of the right context when there is none).
pub open spec fn cond_end(index: int, ls: Seq<nat>, pn: nat, rs: Seq<nat>, cd: Option<int>) -> int {
    match cd {
        Some(e) => e,
        None => arrow_pos(index, ls, pn, rs),
    }
}

/// Where the `->` of a simple rule stands.
pub open spec fn sep_pos(index: int, ls: Seq<nat>, pn: nat, rs: Seq<nat>, cd: Option<int>, pr: bool) -> int {
    cond_end(index, ls, pn, rs, cd) + if pr { 2int } else { 0int }
}

/// The tokens from `index` to the end are a rule made of simple words:
/// optionally a left context `ls` and `<`, the predecessor with `pn`
/// parameters, optionally `>` and a right context `rs`, optionally `:` and
/// a simple condition ending at `cd`, optionally `@` and a number
/// (`pr`), then `->` and the replacement `qs`.
pub open spec fn simple_rule(t: Seq<Token>, index: int, ls: Seq<nat>, pn: nat, rs: Seq<nat>, cd: Option<int>, pr: bool, qs: Seq<nat>) -> bool {
    let pp = pred_pos(index, ls);
    let q = pp + group_len(pn);
    let e2 = arrow_pos(index, ls, pn, rs);
    let ce = cond_end(index, ls, pn, rs, cd);
    let a = sep_pos(index, ls, pn, rs, cd, pr);
    &&& ls.len() > 0 ==> literal_groups(t, index, ls) && pp - 1 < t.len() && t[pp - 1].toktype == TokenType::Lsep
    &&& literal_word_at(t, pp, pn) && (t[pp].toktype == TokenType::Char || t[pp].toktype == TokenType::Letter)
    &&& q < t.len()
    &&& rs.len() > 0 ==> t[q].toktype == TokenType::Rsep && literal_groups(t, q + 1, rs)
    &&& e2 < t.len()
    &&& cd is Some ==> t[e2].toktype == TokenType::Condsep && simple_cond_at(t, e2 + 1, cd->Some_0)
        && e2 + 1 < cd->Some_0
    &&& pr ==> ce + 1 < t.len() && t[ce].toktype == TokenType::Psep && t[ce + 1].toktype == TokenType::Number
    &&& a < t.len() && t[a].toktype == TokenType::Patsep
    &&& qs.len() > 0 && literal_groups(t, a + 1, qs) && group_start(a + 1, qs, qs.len() as int) == t.len()
}

/// The rule node read from a simple rule: its contexts, predecessor and
/// replacement are the nodes of the words they are made of, its condition
/// the tree of the simple condition, its probability the number's text.
pub open spec fn simple_rule_node(n: AstNode, t: Seq<Token>, index: int, ls: Seq<nat>, pn: nat, rs: Seq<nat>, cd: Option<int>, pr: bool, qs: Seq<nat>) -> bool {
    let pp = pred_pos(index, ls);
    let q = pp + group_len(pn);
    let e2 = arrow_pos(index, ls, pn, rs);
    let ce = cond_end(index, ls, pn, rs, cd);
    let a = sep_pos(index, ls, pn, rs, cd, pr);
    let kl: int = if ls.len() > 0 { 1 } else { 0 };
    let kr: int = if rs.len() > 0 { 1 } else { 0 };
    let kc: int = if cd is Some { 1 } else { 0 };
    let kp: int = if pr { 1 } else { 0 };
    &&& n.node_type == TokenType::Rule
    &&& n.children@.len() == kl + 2 + kr + kc + kp
    &&& ls.len() > 0 ==> groups_node(*n.children@[0], t, index, ls, TokenType::Lctx)
    &&& n.children@[kl].node_type == TokenType::Pred
    &&& group_node(AstNode { node_type: TokenType::ParamWord, ..*n.children@[kl] }, t, pp, pn)
    &&& rs.len() > 0 ==> groups_node(*n.children@[kl + 1], t, q + 1, rs, TokenType::Rctx)
    &&& cd is Some ==> simple_cond_node(*n.children@[kl + 1 + kr], t, e2 + 1)
    &&& pr ==> n.children@[kl + 1 + kr + kc].node_type == TokenType::Prob
        && n.children@[kl + 1 + kr + kc].data@ == t[ce + 1].val@
    &&& groups_node(*n.children@[kl + 1 + kr + kc + kp], t, a + 1, qs, TokenType::Replacement)
}

/// The predecessor alone is a word group ending before `>` or `->`.
proof fn lemma_pred_group(t: Seq<Token>, index: int, pn: nat, rs: Seq<nat>, cd: Option<int>, pr: bool, qs: Seq<nat>)
    requires
        simple_rule(t, index, Seq::empty(), pn, rs, cd, pr, qs),
    ensures
        literal_groups(t, index, seq![pn]),
        group_start(index, seq![pn], 1) == index + group_len(pn),
{
    let ns = seq![pn];
    assert(group_start(index, ns, 0) == index);
    assert(group_start(index, ns, 1) == index + group_len(pn));
    let q = index + group_len(pn);
    if rs.len() > 0 {
        assert(t[q].toktype == TokenType::Rsep);
    } else if cd is Some {
        assert(t[q].toktype == TokenType::Condsep);
    } else if pr {
        assert(t[q].toktype == TokenType::Psep);
    } else {
        assert(t[q].toktype == TokenType::Patsep);
    }
}

/// Rule: `[lctx] p_word [rctx] [':' cond] [prob] '->' pat`.
#[verifier::rlimit(100)]
fn rule(tokens: &Vec<Token>, index: usize) -> (r: AstRet)
    requires
        index <= tokens@.len(),
    ensures
        advances(tokens@.len() as int, index as int, r),
        kind_is(r, TokenType::Rule),
        r.0 is Some ==> rule_shape(child_kinds(*r.0->Some_0)),
        !glyph_start(tokens@, index as int) ==> r.0 is None,
        forall|ls: Seq<nat>, pn: nat, rs: Seq<nat>, cd: Option<int>, pr: bool, qs: Seq<nat>| #[trigger] simple_rule(tokens@, index as int, ls, pn, rs, cd, pr, qs)
            ==> r.0 is Some && r.1 == tokens@.len() && simple_rule_node(*r.0->Some_0, tokens@, index as int, ls, pn, rs, cd, pr, qs),
{
    let ghost t = tokens@;
    let mut result = inner(TokenType::Rule);
    let ghost mut has_l = false;
    let ghost mut has_r = false;
    let ghost mut cnd: Option<TokenType> = None;
    let ghost mut has_p = false;
    let mut i = index;
    let (l, j) = lctx(tokens, i);
    let ghost lres = (l is Some, j);
    let ghost lnode = l;
    match l {
        Some(l) => {
            result.children.push(l);
            i = j;
            proof {
                has_l = true;
            }
        },
        None => {},
    }
    let ghost i1 = i;
    assert(child_kinds(result) =~= opt_kind(has_l, TokenType::Lctx));
    let (p, j) = p_word(tokens, i);
    let ghost pnode = p;
    match p {
        Some(mut p) => {
            p.node_type = TokenType::Pred;
            result.children.push(p);
            i = j;
        },
        None => {
            proof {
                assert forall|ls: Seq<nat>, pn: nat, rs: Seq<nat>, cd: Option<int>, pr: bool, qs: Seq<nat>| !#[trigger] simple_rule(t, index as int, ls, pn, rs, cd, pr, qs) by {
                    if simple_rule(t, index as int, ls, pn, rs, cd, pr, qs) {
                        if ls.len() == 0 {
                            lemma_pred_group(t, index as int, pn, rs, cd, pr, qs);
                        }
                        assert(literal_word_at(t, pred_pos(index as int, ls), pn));
                    }
                }
            }
            return (None, index);
        },
    }
    let ghost i2 = i;
    let ghost c2 = result.children@;
    assert(child_kinds(result) =~= opt_kind(has_l, TokenType::Lctx) + seq![TokenType::Pred]);
    let (rc, j) = rctx(tokens, i);
    let ghost rres = rc is Some;
    let ghost rnode = rc;
    match rc {
        Some(rc) => {
            result.children.push(rc);
            i = j;
            proof {
                has_r = true;
            }
        },
        None => {},
    }
    let ghost i3 = i;
    let ghost c3 = result.children@;
    let ghost k1 = opt_kind(has_l, TokenType::Lctx) + seq![TokenType::Pred] + opt_kind(has_r, TokenType::Rctx);
    assert(child_kinds(result) =~= k1);
    let ghost took_cond = tok_is_spec(t, i as int, TokenType::Condsep);
    let ghost mut cnode: AstNode = result;
    let ghost mut cnode_end: int = 0;
    if tok_is(tokens, i, TokenType::Condsep) {
        let (c, j) = cond(tokens, i + 1);
        match c {
            Some(c) => {
                proof {
                    cnd = Some(c.node_type);
                    cnode = *c;
                    cnode_end = j as int;
                }
                result.children.push(c);
                assert(result.children@ == c3.push(c));
                i = j;
            },
            None => {},
        }
    }
    let ghost c4 = result.children@;
    assert(cnd is Some ==> c4.len() == c3.len() + 1 && *c4[c3.len() as int] == cnode
        && forall|k: int| 0 <= k < c3.len() ==> c4[k] == c3[k]);
    assert(cnd is None ==> c4 == c3);
    let ghost k2 = k1 + match cnd { Some(t) => seq![t], None => Seq::<TokenType>::empty() };
    assert(child_kinds(result) =~= k2);
    let ghost i4 = i;
    let (prn, j) = prob(tokens, i);
    let ghost pres = prn is Some;
    let ghost mut pnode_p: AstNode = result;
    match prn {
        Some(prn) => {
            proof {
                pnode_p = *prn;
            }
            result.children.push(prn);
            assert(result.children@ == c4.push(prn));
            i = j;
            proof {
                has_p = true;
            }
        },
        None => {},
    }
    let ghost c5 = result.children@;
    assert(has_p ==> c5.len() == c4.len() + 1 && *c5[c4.len() as int] == pnode_p
        && forall|k: int| 0 <= k < c4.len() ==> c5[k] == c4[k]);
    assert(!has_p ==> c5 == c4);
    let ghost k3 = k2 + opt_kind(has_p, TokenType::Prob);
    assert(child_kinds(result) =~= k3);
    proof {
        assert forall|ls: Seq<nat>, pn: nat, rs: Seq<nat>, cd: Option<int>, pr: bool, qs: Seq<nat>| #[trigger] simple_rule(t, index as int, ls, pn, rs, cd, pr, qs)
            implies {
                let e2 = arrow_pos(index as int, ls, pn, rs);
                let ce = cond_end(index as int, ls, pn, rs, cd);
                let kc: int = if cd is Some { 1 } else { 0 };
                &&& i == sep_pos(index as int, ls, pn, rs, cd, pr)
                &&& has_l == (ls.len() > 0)
                &&& has_r == (rs.len() > 0)
                &&& (cnd is Some) == (cd is Some)
                &&& has_p == pr
                &&& c5.len() == c3.len() + kc + (if pr { 1int } else { 0int })
                &&& forall|k: int| 0 <= k < c3.len() ==> c5[k] == c3[k]
                &&& cd is Some ==> *c5[c3.len() as int] == cnode && simple_cond_node(cnode, t, e2 + 1)
                &&& pr ==> *c5[c3.len() + kc] == pnode_p && pnode_p.node_type == TokenType::Prob
                    && pnode_p.data@ == t[ce + 1].val@
                &&& simple_rule_head(c3, t, index as int, ls, pn, rs)
            } by {
            let pp = pred_pos(index as int, ls);
            let q = pp + group_len(pn);
            if ls.len() == 0 {
                lemma_pred_group(t, index as int, pn, rs, cd, pr, qs);
                assert(lres.0 == false);
                assert(i1 == index);
            } else {
                assert(lres.0 && lres.1 == pp);
            }
            assert(i1 == pp);
            assert(i2 == q);
            if rs.len() > 0 {
                assert(rres);
            } else {
                assert(!rres) by {
                    if cd is Some {
                        assert(t[q].toktype == TokenType::Condsep);
                    } else if pr {
                        assert(t[q].toktype == TokenType::Psep);
                    } else {
                        assert(t[q].toktype == TokenType::Patsep);
                    }
                }
            }
            let e2 = arrow_pos(index as int, ls, pn, rs);
            assert(i3 == e2);
            if cd is Some {
                assert(took_cond);
                assert(simple_cond_at(t, e2 + 1, cd->Some_0));
                assert(cnd is Some && cnode_end == cd->Some_0);
                assert(i4 == cd->Some_0);
            } else {
                assert(!took_cond) by {
                    if pr {
                        assert(t[e2].toktype == TokenType::Psep);
                    } else {
                        assert(t[e2].toktype == TokenType::Patsep);
                    }
                }
                assert(i4 == i3);
            }
            let ce = cond_end(index as int, ls, pn, rs, cd);
            assert(i4 == ce);
            if pr {
                assert(pres);
            } else {
                assert(t[ce].toktype == TokenType::Patsep);
                assert(!pres);
            }
        }
    }
    if !tok_is(tokens, i, TokenType::Patsep) {
        proof {
            assert forall|ls: Seq<nat>, pn: nat, rs: Seq<nat>, cd: Option<int>, pr: bool, qs: Seq<nat>| !#[trigger] simple_rule(t, index as int, ls, pn, rs, cd, pr, qs) by {
                if simple_rule(t, index as int, ls, pn, rs, cd, pr, qs) {
                    assert(i == sep_pos(index as int, ls, pn, rs, cd, pr));
                }
            }
        }
        return (None, index);
    }
    let (rp, j) = pat(tokens, i + 1);
    match rp {
        Some(mut rp) => {
            let ghost pat_node = *rp;
            rp.node_type = TokenType::Replacement;
            result.children.push(rp);
            assert(child_kinds(result) =~= k3 + seq![TokenType::Replacement]);
            assert(rule_shape(child_kinds(result)));
            proof {
                assert forall|ls: Seq<nat>, pn: nat, rs: Seq<nat>, cd: Option<int>, pr: bool, qs: Seq<nat>| #[trigger] simple_rule(t, index as int, ls, pn, rs, cd, pr, qs)
                    implies j == t.len() && simple_rule_node(result, t, index as int, ls, pn, rs, cd, pr, qs) by {
                    let a = sep_pos(index as int, ls, pn, rs, cd, pr);
                    assert(i == a);
                    assert(literal_groups(t, a + 1, qs));
                    let n = result;
                    let kl: int = if ls.len() > 0 { 1 } else { 0 };
                    let kr: int = if rs.len() > 0 { 1 } else { 0 };
                    let kc: int = if cd is Some { 1 } else { 0 };
                    let kp: int = if pr { 1 } else { 0 };
                    assert(n.children@.len() == kl + 2 + kr + kc + kp);
                    assert(n.children@[kl + 1 + kr + kc + kp] == rp);
                    assert forall|k: int| 0 <= k < kl + 1 + kr + kc + kp implies n.children@[k] == c5[k] by {}
                    assert(groups_node(*rp, t, a + 1, qs, TokenType::Replacement)) by {
                        assert(rp.children == pat_node.children);
                    }
                }
            }
            (Some(Box::new(result)), j)
        },
        None => {
            proof {
                assert forall|ls: Seq<nat>, pn: nat, rs: Seq<nat>, cd: Option<int>, pr: bool, qs: Seq<nat>| !#[trigger] simple_rule(t, index as int, ls, pn, rs, cd, pr, qs) by {
                    if simple_rule(t, index as int, ls, pn, rs, cd, pr, qs) {
                        assert(i == sep_pos(index as int, ls, pn, rs, cd, pr));
                        assert(literal_groups(t, i + 1, qs));
                    }
                }
            }
            (None, index)
        },
    }
}

pub open spec fn tok_is_spec(t: Seq<Token>, i: int, k: TokenType) -> bool {
    0 <= i < t.len() && t[i].toktype == k
}

/// The children of a simple rule read before the arrow.
pub open spec fn simple_rule_head(c: Seq<Box<AstNode>>, t: Seq<Token>, index: int, ls: Seq<nat>, pn: nat, rs: Seq<nat>) -> bool {
    let pp = pred_pos(index, ls);
    let q = pp + group_len(pn);
    let kl: int = if ls.len() > 0 { 1 } else { 0 };
    let kr: int = if rs.len() > 0 { 1 } else { 0 };
    &&& c.len() == kl + 1 + kr
    &&& ls.len() > 0 ==> groups_node(*c[0], t, index, ls, TokenType::Lctx)
    &&& c[kl].node_type == TokenType::Pred
    &&& group_node(AstNode { node_type: TokenType::ParamWord, ..*c[kl] }, t, pp, pn)
    &&& rs.len() > 0 ==> groups_node(*c[kl + 1], t, q + 1, rs, TokenType::Rctx)
}

/// The parameters of a word node read from simple tokens compile.
proof fn lemma_word_params_compile(n: AstNode, t: Seq<Token>, p: int, m: nat, k: int)
    requires
        group_node(AstNode { node_type: TokenType::ParamWord, ..n }, t, p, m),
        literal_word_at(t, p, m),
        0 <= k <= m + 1,
    ensures
        compile_params(n, k) is Some,
    decreases k,
{
    if k > 1 {
        lemma_word_params_compile(n, t, p, m, k - 1);
        let j = k - 2;
        let c = *n.children@[k - 1];
        assert(AstNode { node_type: TokenType::ParamWord, ..n }.children@[j + 1] == n.children@[k - 1]);
        assert(c.children@.len() == 1);
        assert(leaf_sum(*c.children@[0], t[p + 2 + 2 * j].val@));
        assert(t[p + 2 + 2 * j].val@.len() > 0);
        lemma_leaf_sum_compiles(*c.children@[0]);
    }
}

/// A word node read from simple tokens compiles to a symbol.
proof fn lemma_word_compiles(n: AstNode, t: Seq<Token>, p: int, m: nat)
    requires
        group_node(AstNode { node_type: TokenType::ParamWord, ..n }, t, p, m),
        literal_word_at(t, p, m),
        n.node_type == TokenType::ParamWord || n.node_type == TokenType::Pred,
    ensures
        compile_symbol(n) is Some,
{
    lemma_word_params_compile(n, t, p, m, m as int + 1);
    assert(AstNode { node_type: TokenType::ParamWord, ..n }.children@[0] == n.children@[0]);
}

/// The words of a group node compile.
proof fn lemma_groups_compile(n: AstNode, t: Seq<Token>, index: int, ns: Seq<nat>, kind: TokenType, rs: Seq<char>, k: int)
    requires
        groups_node(n, t, index, ns, kind),
        literal_groups(t, index, ns),
        0 <= k <= ns.len(),
    ensures
        compile_symbols(n, rs, k) is Some,
    decreases k,
{
    if k > 0 {
        lemma_groups_compile(n, t, index, ns, kind, rs, k - 1);
        let c = *n.children@[k - 1];
        assert(group_node(c, t, group_start(index, ns, k - 1), ns[k - 1]));
        assert(literal_word_at(t, group_start(index, ns, k - 1), ns[k - 1]));
        assert(AstNode { node_type: TokenType::ParamWord, ..c } == c);
        lemma_word_compiles(c, t, group_start(index, ns, k - 1), ns[k - 1]);
    }
}

/// A rule node read from a simple rule gives a production: every part
/// compiles, and the probability is the default one.
/// A simple condition's tree compiles.
proof fn lemma_simple_cond_compiles(n: AstNode, t: Seq<Token>, i: int)
    requires
        simple_cond_node(n, t, i),
        simple_bool_end(t, i) is Some,
    ensures
        compile_cond(n) is Some,
{
    let c = *n.children@[0];
    let x = *c.children@[0];
    if !letters_are(t, i, true_word()) && !letters_are(t, i, false_word()) {
        assert(simple_comp_at(t, i));
        lemma_leaf_sum_compiles(*x.children@[0]);
        lemma_leaf_sum_compiles(*x.children@[1]);
        assert(compile_cond(x) is Some);
    } else {
        assert(compile_cond(x) is Some);
    }
    assert(fold_conds(c, 0) == compile_cond(x));
    assert(compile_cond(c) is Some);
    assert(fold_conds(n, 0) == compile_cond(c));
}

/// The probability text of a simple rule is a number in `[0, 1]`, or there is none.
pub open spec fn prob_ok(t: Seq<Token>, index: int, ls: Seq<nat>, pn: nat, rs: Seq<nat>, cd: Option<int>, pr: bool) -> bool {
    let d = t[cond_end(index, ls, pn, rs, cd) + 1].val@;
    pr ==> is_decimal(d) && fits_i64(decimal_value(d)) && 0 <= decimal_value(d) <= SCALE
}

/// A rule node read from a simple rule gives a production exactly when
/// its probability, if any, is a number in `[0, 1]`: every other part
/// compiles.
#[verifier::rlimit(100)]
proof fn lemma_simple_rule_loads(n: AstNode, t: Seq<Token>, index: int, ls: Seq<nat>, pn: nat, rs: Seq<nat>, cd: Option<int>, pr: bool, qs: Seq<nat>)
    requires
        simple_rule(t, index, ls, pn, rs, cd, pr, qs),
        simple_rule_node(n, t, index, ls, pn, rs, cd, pr, qs),
    ensures
        rule_ok(n) <==> prob_ok(t, index, ls, pn, rs, cd, pr),
{
    let kl: int = if ls.len() > 0 { 1 } else { 0 };
    let kr: int = if rs.len() > 0 { 1 } else { 0 };
    let kc: int = if cd is Some { 1 } else { 0 };
    let kp: int = if pr { 1 } else { 0 };
    let pp = pred_pos(index, ls);
    let q = pp + group_len(pn);
    let e2 = arrow_pos(index, ls, pn, rs);
    let ce = cond_end(index, ls, pn, rs, cd);
    let sp = sep_pos(index, ls, pn, rs, cd, pr);
    if ls.len() > 0 {
        lemma_groups_compile(*n.children@[0], t, index, ls, TokenType::Lctx, Seq::empty(), ls.len() as int);
    }
    lemma_word_compiles(*n.children@[kl], t, pp, pn);
    if rs.len() > 0 {
        lemma_groups_compile(*n.children@[kl + 1], t, q + 1, rs, TokenType::Rctx, Seq::empty(), rs.len() as int);
    }
    if cd is Some {
        lemma_simple_cond_compiles(*n.children@[kl + 1 + kr], t, e2 + 1);
    }
    lemma_groups_compile(*n.children@[kl + 1 + kr + kc + kp], t, sp + 1, qs, TokenType::Replacement, Seq::empty(), qs.len() as int);
    let len = n.children@.len() as int;
    assert(rule_parts(n, 0) is Some);
    if ls.len() > 0 {
        assert(rule_parts(n, 1) is Some && rule_parts(n, 1)->Some_0.p == SCALE);
    }
    let k1 = kl + 1;
    assert(rule_parts(n, k1) is Some && rule_parts(n, k1)->Some_0.pred is Some && rule_parts(n, k1)->Some_0.p == SCALE);
    let k2 = k1 + kr;
    if rs.len() > 0 {
        assert(rule_parts(n, k2) is Some && rule_parts(n, k2)->Some_0.pred is Some && rule_parts(n, k2)->Some_0.p == SCALE);
    }
    let k3 = k2 + kc;
    if cd is Some {
        assert(rule_parts(n, k3) is Some && rule_parts(n, k3)->Some_0.pred is Some && rule_parts(n, k3)->Some_0.p == SCALE);
    }
    assert(rule_parts(n, k3) is Some && rule_parts(n, k3)->Some_0.pred is Some && rule_parts(n, k3)->Some_0.p == SCALE);
    let k4 = k3 + kp;
    let d = t[ce + 1].val@;
    if pr {
        if is_decimal(d) && fits_i64(decimal_value(d)) {
            assert(rule_parts(n, k4) is Some && rule_parts(n, k4)->Some_0.pred is Some
                && rule_parts(n, k4)->Some_0.p == decimal_value(d) as i64);
            assert(rule_parts(n, len) is Some && rule_parts(n, len)->Some_0.pred is Some
                && rule_parts(n, len)->Some_0.repl is Some && rule_parts(n, len)->Some_0.p == decimal_value(d) as i64);
        } else {
            assert(rule_parts(n, k4) is None);
            assert(rule_parts(n, len) is None);
        }
    } else {
        assert(rule_parts(n, len) is Some && rule_parts(n, len)->Some_0.pred is Some
            && rule_parts(n, len)->Some_0.repl is Some && rule_parts(n, len)->Some_0.p == SCALE);
    }
}

/// The tokens without the spaces.
fn without_spaces(tokens: Vec<Token>) -> (r: Vec<Token>)
    ensures
        forall|k: int| 0 <= k < r@.len() ==> r@[k].toktype != TokenType::Ws,
        tokens_view(r@) == spaceless(tokens_view(tokens@)),
{
    let ghost orig = tokens@;
    let mut r: Vec<Token> = Vec::new();
    let mut tokens = tokens;
    let ghost mut k: int = 0;
    assert(tokens_view(r@) =~= spaceless(tokens_view(orig.take(0))));
    while tokens.len() > 0
        invariant
            forall|q: int| 0 <= q < r@.len() ==> r@[q].toktype != TokenType::Ws,
            0 <= k <= orig.len(),
            tokens@ == orig.skip(k),
            tokens_view(r@) == spaceless(tokens_view(orig.take(k))),
        decreases tokens@.len(),
    {
        let ghost before = r@;
        let t = tokens.remove(0);
        proof {
            assert(t == orig[k]);
            assert(tokens_view(orig.take(k + 1)).drop_last() =~= tokens_view(orig.take(k)));
            assert(tokens_view(orig.take(k + 1)).last() == t@);
        }
        if t.toktype != TokenType::Ws {
            r.push(t);
            assert(tokens_view(r@) =~= tokens_view(before).push(t@));
        }
        proof {
            k = k + 1;
            assert(tokens@ =~= orig.skip(k));
        }
    }
    assert(orig.take(k) =~= orig);
    r
}

/// A rule made of simple words does not start with `#`, so it is no directive.
proof fn lemma_rule_starts_with_glyph(v: Seq<(TokenType, Seq<char>)>, t: Seq<Token>, ls: Seq<nat>, pn: nat, rs: Seq<nat>, cd: Option<int>, pr: bool, qs: Seq<nat>)
    requires
        tokens_view(t) == spaceless(v),
        simple_rule(t, 0, ls, pn, rs, cd, pr, qs),
    ensures
        v.len() > 0 ==> v[0].0 != TokenType::PreprocStart,
{
    assert(t.len() > 0);
    let p0 = if ls.len() > 0 { 0int } else { pred_pos(0, ls) };
    if ls.len() > 0 {
        assert(literal_word_at(t, group_start(0, ls, 0), ls[0]));
    }
    assert(t[0].toktype != TokenType::PreprocStart);
    assert(tokens_view(t)[0] == t[0]@);
    lemma_spaceless_first(v);
}

/// The first token of the text without spaces is its first one, unless
/// the text starts with a space.
proof fn lemma_spaceless_first(v: Seq<(TokenType, Seq<char>)>)
    ensures
        v.len() > 0 && v[0].0 != TokenType::Ws ==> spaceless(v).len() > 0 && spaceless(v)[0] == v[0],
        v.len() > 0 && v[0].0 == TokenType::PreprocStart ==> spaceless(v).len() > 0 && spaceless(v)[0].0 == TokenType::PreprocStart,
        forall|k: int| 0 <= k < spaceless(v).len() ==> (#[trigger] spaceless(v)[k]).0 != TokenType::Ws,
    decreases v.len(),
{
    if v.len() > 0 {
        lemma_spaceless_first(v.drop_last());
        if v.len() > 1 {
            assert(v.drop_last()[0] == v[0]);
        } else {
            assert(v.drop_last().len() == 0);
        }
    }
}

/// Tokens without the spaces.
pub open spec fn spaceless(v: Seq<(TokenType, Seq<char>)>) -> Seq<(TokenType, Seq<char>)>
    decreases v.len(),
{
    if v.len() == 0 {
        Seq::empty()
    } else if v.last().0 == TokenType::Ws {
        spaceless(v.drop_last())
    } else {
        spaceless(v.drop_last()).push(v.last())
    }
}

/// The first token can start a word.
pub open spec fn glyph_start_view(v: Seq<(TokenType, Seq<char>)>) -> bool {
    v.len() > 0 && (v[0].0 == TokenType::Char || v[0].0 == TokenType::Letter
        || v[0].0 == TokenType::Lpsep || v[0].0 == TokenType::Rpsep)
}

/// The tokens are a rule made of simple words.
pub open spec fn simple_rule_line(v: Seq<(TokenType, Seq<char>)>) -> bool {
    exists|t: Seq<Token>, ls: Seq<nat>, pn: nat, rs: Seq<nat>, cd: Option<int>, pr: bool, qs: Seq<nat>|
        tokens_view(t) == v && #[trigger] simple_rule(t, 0, ls, pn, rs, cd, pr, qs)
}

/// Tokens with the same kinds and texts.
pub open spec fn same_tokens(a: Seq<Token>, b: Seq<Token>) -> bool {
    a.len() == b.len() && forall|i: int| 0 <= i < a.len() ==> (#[trigger] a[i]).toktype == b[i].toktype && a[i].val@ == b[i].val@
}

proof fn lemma_same_tokens(a: Seq<Token>, b: Seq<Token>)
    requires
        tokens_view(a) == tokens_view(b),
    ensures
        same_tokens(a, b),
{
    assert(tokens_view(a).len() == a.len());
    assert(tokens_view(b).len() == b.len());
    assert forall|i: int| 0 <= i < a.len() implies (#[trigger] a[i]).toktype == b[i].toktype && a[i].val@ == b[i].val@ by {
        assert(tokens_view(a)[i] == a[i]@);
        assert(tokens_view(b)[i] == b[i]@);
        assert(tokens_view(a)[i] == tokens_view(b)[i]);
    }
}

proof fn lemma_word_same(a: Seq<Token>, b: Seq<Token>, i: int, n: nat)
    requires
        same_tokens(a, b),
        literal_word_at(a, i, n),
    ensures
        literal_word_at(b, i, n),
{
    assert(a[i].toktype == b[i].toktype && a[i].val@ == b[i].val@);
    assert forall|k: int| 0 <= k < n implies (#[trigger] b[i + 2 + 2 * k]).val@.len() > 0 by {
        assert(a[i + 2 + 2 * k].val@ == b[i + 2 + 2 * k].val@);
    }
    if i + 1 < a.len() {
        assert(a[i + 1].toktype == b[i + 1].toktype);
    }
    if n > 0 {
        assert(a[i + 1 + 2 * n].toktype == b[i + 1 + 2 * n].toktype);
        assert forall|k: int| 0 <= k < n implies (#[trigger] b[i + 2 + 2 * k]).toktype == TokenType::Number
            || b[i + 2 + 2 * k].toktype == TokenType::Letter by {
            assert(a[i + 2 + 2 * k].toktype == b[i + 2 + 2 * k].toktype);
        }
        assert forall|k: int| 0 <= k < n - 1 implies (#[trigger] b[i + 3 + 2 * k]).toktype == TokenType::Char
            && b[i + 3 + 2 * k].val@ == seq![','] by {
            assert(a[i + 3 + 2 * k].toktype == b[i + 3 + 2 * k].toktype);
        }
    }
}

proof fn lemma_groups_same(a: Seq<Token>, b: Seq<Token>, index: int, ns: Seq<nat>)
    requires
        same_tokens(a, b),
        literal_groups(a, index, ns),
    ensures
        literal_groups(b, index, ns),
{
    assert forall|k: int| 0 <= k < ns.len() implies literal_word_at(b, #[trigger] group_start(index, ns, k), ns[k]) by {
        lemma_word_same(a, b, group_start(index, ns, k), ns[k]);
    }
    let e = group_start(index, ns, ns.len() as int);
    if 0 <= e < a.len() {
        assert(a[e].toktype == b[e].toktype);
    }
}

proof fn lemma_simple_cond_same(a: Seq<Token>, b: Seq<Token>, i: int, e: int)
    requires
        same_tokens(a, b),
        0 <= i,
        simple_cond_at(a, i, e),
    ensures
        simple_cond_at(b, i, e),
{
    assert forall|k: int| i <= k < i + 6 && k < a.len() implies a[k].toktype == b[k].toktype && a[k].val@ == b[k].val@ by {}
    if 0 <= e < a.len() {
        assert(a[e].toktype == b[e].toktype && a[e].val@ == b[e].val@);
    }
    assert(letters_are(a, i, true_word()) == letters_are(b, i, true_word())) by {
        if i + 4 <= a.len() {
            assert(a[i + 0].val@ == b[i + 0].val@);
            assert(a[i + 1].val@ == b[i + 1].val@);
            assert(a[i + 2].val@ == b[i + 2].val@);
            assert(a[i + 3].val@ == b[i + 3].val@);
        }
    }
    assert(letters_are(a, i, false_word()) == letters_are(b, i, false_word())) by {
        if i + 5 <= a.len() {
            assert(a[i + 0].val@ == b[i + 0].val@);
            assert(a[i + 4].val@ == b[i + 4].val@);
        }
    }
    assert(simple_comp_at(a, i) == simple_comp_at(b, i));
}

proof fn lemma_simple_rule_same(a: Seq<Token>, b: Seq<Token>, index: int, ls: Seq<nat>, pn: nat, rs: Seq<nat>, cd: Option<int>, pr: bool, qs: Seq<nat>)
    requires
        index >= 0,
        same_tokens(a, b),
        simple_rule(a, index, ls, pn, rs, cd, pr, qs),
    ensures
        simple_rule(b, index, ls, pn, rs, cd, pr, qs),
{
    let pp = pred_pos(index, ls);
    let q = pp + group_len(pn);
    let e2 = arrow_pos(index, ls, pn, rs);
    let ce = cond_end(index, ls, pn, rs, cd);
    let sp = sep_pos(index, ls, pn, rs, cd, pr);
    if ls.len() > 0 {
        lemma_group_start_mono(index, ls, 0, ls.len() as int);
        lemma_groups_same(a, b, index, ls);
        assert(a[pp - 1].toktype == b[pp - 1].toktype);
    }
    lemma_word_same(a, b, pp, pn);
    if rs.len() > 0 {
        lemma_group_start_mono(q + 1, rs, 0, rs.len() as int);
    }
    assert(a[pp].toktype == b[pp].toktype);
    if rs.len() > 0 {
        assert(a[q].toktype == b[q].toktype);
        lemma_groups_same(a, b, q + 1, rs);
    }
    assert(a[e2].toktype == b[e2].toktype);
    if cd is Some {
        lemma_simple_cond_same(a, b, e2 + 1, cd->Some_0);
    }
    if pr {
        assert(a[ce].toktype == b[ce].toktype);
        assert(a[ce + 1].toktype == b[ce + 1].toktype);
    }
    assert(a[sp].toktype == b[sp].toktype);
    lemma_groups_same(a, b, sp + 1, qs);
}

/// What is known of the result of `parse` on a line.
pub open spec fn parse_post(s: Seq<char>, r: Option<Box<AstNode>>) -> bool {
    &&& r is Some ==> r->Some_0.node_type == TokenType::Preproc || r->Some_0.node_type == TokenType::Rule
    &&& r is Some && r->Some_0.node_type == TokenType::Rule ==> rule_shape(child_kinds(*r->Some_0))
    &&& lex(s).len() > 1 && lex(s)[0].0 == TokenType::PreprocStart && lex(s)[1].0 == TokenType::Letter
        ==> r is Some && r->Some_0.node_type == TokenType::Preproc && exists|t: Seq<Token>| tokens_view(t) == lex(s)
            && r->Some_0.data@ == concat_vals(t, 1, letters_end(t, 1))
            && #[trigger] child_texts(*r->Some_0) == directive_params(t, letters_end(t, 1))
    &&& !(lex(s).len() > 0 && lex(s)[0].0 == TokenType::PreprocStart) && !glyph_start_view(spaceless(lex(s)))
        ==> r is None
    &&& simple_rule_line(spaceless(lex(s))) ==> r is Some && exists|t: Seq<Token>, ls: Seq<nat>, pn: nat, rs: Seq<nat>, cd: Option<int>, pr: bool, qs: Seq<nat>|
        tokens_view(t) == spaceless(lex(s)) && #[trigger] simple_rule(t, 0, ls, pn, rs, cd, pr, qs)
        && simple_rule_node(*r->Some_0, t, 0, ls, pn, rs, cd, pr, qs)
        && (rule_ok(*r->Some_0) <==> prob_ok(t, 0, ls, pn, rs, cd, pr))
}

/// Parses one line: a directive, else a rule (spaces do not count in a rule).
pub fn parse(s: &str) -> (r: Option<Box<AstNode>>)
    ensures
        parse_post(s@, r),
{
    let tokens = lexer(s);
    proof {
        if tokens@.len() > 1 {
            assert(tokens_view(tokens@)[0] == tokens@[0]@);
            assert(tokens_view(tokens@)[1] == tokens@[1]@);
        }
    }
    let (p, _) = preproc(&tokens, 0);
    match p {
        Some(p) => {
            proof {
                if simple_rule_line(spaceless(lex(s@))) {
                    let (t, ls, pn, rs, cd, pr, qs) = choose|t: Seq<Token>, ls: Seq<nat>, pn: nat, rs: Seq<nat>, cd: Option<int>, pr: bool, qs: Seq<nat>|
                        tokens_view(t) == spaceless(lex(s@)) && #[trigger] simple_rule(t, 0, ls, pn, rs, cd, pr, qs);
                    lemma_rule_starts_with_glyph(lex(s@), t, ls, pn, rs, cd, pr, qs);
                    assert(tokens_view(tokens@)[0] == tokens@[0]@);
                }
            }
            Some(p)
        },
        None => {
            let tokens = without_spaces(tokens);
            let (r, _) = rule(&tokens, 0);
            proof {
                if tokens@.len() > 0 {
                    assert(tokens_view(tokens@)[0] == tokens@[0]@);
                }
                assert(tokens_view(tokens@).len() == tokens@.len());
            }
            proof {
                if simple_rule_line(spaceless(lex(s@))) {
                    let (t, ls, pn, rs, cd, pr, qs) = choose|t: Seq<Token>, ls: Seq<nat>, pn: nat, rs: Seq<nat>, cd: Option<int>, pr: bool, qs: Seq<nat>|
                        tokens_view(t) == spaceless(lex(s@)) && #[trigger] simple_rule(t, 0, ls, pn, rs, cd, pr, qs);
                    lemma_same_tokens(t, tokens@);
                    lemma_simple_rule_same(t, tokens@, 0, ls, pn, rs, cd, pr, qs);
                    assert(simple_rule(tokens@, 0, ls, pn, rs, cd, pr, qs));
                    lemma_simple_rule_loads(*r->Some_0, tokens@, 0, ls, pn, rs, cd, pr, qs);
                }
            }
            r
        },
    }
}


/// What a rule node has given after some of its children: contexts,
/// probability, predecessor, replacement and condition read so far.
pub struct RuleParts {
    pub left: Option<Seq<SymbolModel>>,
    pub right: Option<Seq<SymbolModel>>,
    pub p: i64,
    pub pred: Option<SymbolModel>,
    pub repl: Option<Seq<SymbolModel>>,
    pub cond: Option<BoolExp>,
}

/// The parts of a rule node after its first `k` children; none when one of
/// them does not compile.
pub open spec fn rule_parts(ast: AstNode, k: int) -> Option<RuleParts>
    decreases k,
{
    if k <= 0 {
        Some(RuleParts { left: None, right: None, p: SCALE, pred: None, repl: None, cond: None })
    } else {
        match rule_parts(ast, k - 1) {
            None => None,
            Some(st) => {
                let c = *ast.children@[k - 1];
                if c.node_type == TokenType::Rctx {
                    match compile_string(c, Seq::empty()) {
                        None => None,
                        Some(x) => Some(RuleParts { right: Some(x), ..st }),
                    }
                } else if c.node_type == TokenType::Lctx {
                    match compile_string(c, Seq::empty()) {
                        None => None,
                        Some(x) => Some(RuleParts { left: Some(x), ..st }),
                    }
                } else if c.node_type == TokenType::Prob {
                    let t = c.data@;
                    if is_decimal(t) && fits_i64(decimal_value(t)) {
                        Some(RuleParts { p: decimal_value(t) as i64, ..st })
                    } else {
                        None
                    }
                } else if c.node_type == TokenType::Pred {
                    match compile_symbol(c) {
                        None => None,
                        Some(x) => Some(RuleParts { pred: Some(x), ..st }),
                    }
                } else if c.node_type == TokenType::Replacement {
                    match compile_string(c, Seq::empty()) {
                        None => None,
                        Some(x) => Some(RuleParts { repl: Some(x), ..st }),
                    }
                } else if c.node_type == TokenType::Cond || c.node_type == TokenType::Not {
                    match compile_cond(c) {
                        None => None,
                        Some(b) => Some(RuleParts { cond: Some(b), ..st }),
                    }
                } else {
                    Some(st)
                }
            },
        }
    }
}

pub open spec fn opt_string_view(c: Option<SymbolString>) -> Option<Seq<SymbolModel>> {
    match c {
        Some(c) => Some(c@),
        None => None,
    }
}

pub open spec fn opt_cond(c: Option<Box<BoolExp>>) -> Option<BoolExp> {
    match c {
        Some(c) => Some(*c),
        None => None,
    }
}

/// The production has the parts that the rule node gives.
pub open spec fn made_from(pat: Pattern, ast: AstNode) -> bool {
    let st = rule_parts(ast, ast.children@.len() as int)->Some_0;
    &&& pat.pattern@ == st.pred->Some_0
    &&& pat.replacement@ == st.repl->Some_0
    &&& pat.p == st.p
    &&& opt_string_view(pat.left) == st.left
    &&& opt_string_view(pat.right) == st.right
    &&& opt_cond(pat.cond) == st.cond
}

/// A rule node gives a production when all its parts compile, it has a
/// predecessor and a replacement, and its probability lies in `[0, 1]`.
pub open spec fn rule_ok(ast: AstNode) -> bool {
    match rule_parts(ast, ast.children@.len() as int) {
        None => false,
        Some(st) => st.pred is Some && st.repl is Some && 0 <= st.p <= SCALE,
    }
}

proof fn lemma_rule_parts_none_stays(ast: AstNode, m: int, k: int)
    requires
        rule_parts(ast, m) is None,
        m <= k,
    ensures
        rule_parts(ast, k) is None,
    decreases k - m,
{
    if m < k {
        lemma_rule_parts_none_stays(ast, m, k - 1);
    }
}

/// Builds a production from a rule node. Fails when the predecessor or the
/// replacement is missing, when a part does not compile, and when the
/// probability is not a number in `[0, 1]`.
pub fn create_rule(ast: &AstNode) -> (r: Result<Pattern, &'static str>)
    ensures
        r is Ok <==> rule_ok(*ast),
        r is Ok ==> made_from(r->Ok_0, *ast),
{
    let mut left: Option<SymbolString> = None;
    let mut right: Option<SymbolString> = None;
    let mut p: i64 = SCALE;
    let mut pattern: Option<Symbol> = None;
    let mut replacement: Option<SymbolString> = None;
    let mut cond: Option<Box<BoolExp>> = None;
    let mut i: usize = 0;
    let n = ast.children.len();
    while i < n
        invariant
            i <= n == ast.children@.len(),
            rule_parts(*ast, i as int) == Some(RuleParts {
                left: opt_string_view(left),
                right: opt_string_view(right),
                p,
                pred: match pattern { Some(x) => Some(x@), None => None },
                repl: opt_string_view(replacement),
                cond: opt_cond(cond),
            }),
        decreases n - i,
    {
        let tok = &ast.children[i];
        if tok.node_type == TokenType::Rctx {
            right = match SymbolString::from_ast(tok, String::new()) {
                Ok(x) => Some(x),
                Err(e) => {
                    proof { lemma_rule_parts_none_stays(*ast, i + 1, n as int); }
                    return Err(e);
                },
            };
        } else if tok.node_type == TokenType::Lctx {
            left = match SymbolString::from_ast(tok, String::new()) {
                Ok(x) => Some(x),
                Err(e) => {
                    proof { lemma_rule_parts_none_stays(*ast, i + 1, n as int); }
                    return Err(e);
                },
            };
        } else if tok.node_type == TokenType::Prob {
            let cs = chars_of_string(&tok.data);
            p = match parse_decimal(&cs) {
                Some(v) => v,
                None => {
                    proof { lemma_rule_parts_none_stays(*ast, i + 1, n as int); }
                    return Err("Invalid probability.");
                },
            };
        } else if tok.node_type == TokenType::Pred {
            pattern = match Symbol::from_ast(tok) {
                Ok(x) => Some(x),
                Err(e) => {
                    proof { lemma_rule_parts_none_stays(*ast, i + 1, n as int); }
                    return Err(e);
                },
            };
        } else if tok.node_type == TokenType::Replacement {
            replacement = match SymbolString::from_ast(tok, String::new()) {
                Ok(x) => Some(x),
                Err(e) => {
                    proof { lemma_rule_parts_none_stays(*ast, i + 1, n as int); }
                    return Err(e);
                },
            };
        } else if tok.node_type == TokenType::Cond || tok.node_type == TokenType::Not {
            cond = match BoolExp::create_from(tok) {
                Ok(c) => Some(c),
                Err(e) => {
                    proof { lemma_rule_parts_none_stays(*ast, i + 1, n as int); }
                    return Err(e);
                },
            };
        }
        i += 1;
    }
    match (pattern, replacement) {
        (Some(pat), Some(rep)) => match Pattern::new(pat, rep, p, left, right, cond) {
            Some(r) => Ok(r),
            None => Err("Probability outside [0, 1]."),
        },
        _ => Err("Rule is missing a pattern or replacement."),
    }
}

/// Text of parameter `i` of a directive node.
pub fn get_param_value(ast: &AstNode, i: usize) -> (r: Option<String>)
    ensures
        i < ast.children@.len() ==> r == Some(ast.children@[i as int].data),
        i >= ast.children@.len() ==> r is None,
{
    if i >= ast.children.len() {
        None
    } else {
        Some(ast.children[i].data.clone())
    }
}

/// Texts of parameters `i` and `i + 1` of a directive node.
pub fn get_define_value(ast: &AstNode, i: usize) -> (r: Option<(String, String)>)
    ensures
        i + 1 < ast.children@.len() ==> r == Some((ast.children@[i as int].data, ast.children@[i + 1].data)),
        i + 1 >= ast.children@.len() ==> r is None,
{
    if i >= ast.children.len() || i + 1 >= ast.children.len() {
        None
    } else {
        Some((ast.children[i].data.clone(), ast.children[i + 1].data.clone()))
    }
}

fn text_is(s: &String, w: Vec<char>) -> (r: bool)
    ensures
        r == (s@ == w@),
{
    let cs = chars_of_string(s);
    if cs.len() != w.len() {
        return false;
    }
    let mut i: usize = 0;
    while i < cs.len()
        invariant
            i <= cs@.len() == w@.len(),
            cs@ == s@,
            forall|k: int| 0 <= k < i ==> cs@[k] == w@[k],
        decreases cs.len() - i,
    {
        if cs[i] != w[i] {
            assert(cs@[i as int] != w@[i as int]);
            return false;
        }
        i += 1;
    }
    assert(cs@ =~= w@);
    true
}

/// A count: decimal digits only, in the range of `usize`.
pub open spec fn count_value(s: Seq<char>) -> Option<usize> {
    if s.len() > 0 && (forall|k: int| 0 <= k < s.len() ==> is_digit(#[trigger] s[k])) && digits_value(s) <= usize::MAX {
        Some(digits_value(s) as usize)
    } else {
        None
    }
}

/// Reads a count: decimal digits only, in range.
pub fn parse_count(s: &String) -> (r: Option<usize>)
    ensures
        r == count_value(s@),
{
    let cs = chars_of_string(s);
    if cs.len() == 0 {
        return None;
    }
    let mut v: usize = 0;
    let mut i: usize = 0;
    while i < cs.len()
        invariant
            i <= cs@.len(),
            cs@ == s@,
            forall|k: int| 0 <= k < i ==> is_digit(cs@[k]),
            v as int == digits_value(cs@.take(i as int)),
        decreases cs.len() - i,
    {
        let c = cs[i];
        if !('0' <= c && c <= '9') {
            assert(!is_digit(cs@[i as int]));
            return None;
        }
        assert(cs@.take(i + 1).drop_last() =~= cs@.take(i as int));
        let d = (c as u32 - '0' as u32) as usize;
        if v > (usize::MAX - d) / 10 {
            proof {
                if forall|k: int| 0 <= k < cs@.len() ==> is_digit(#[trigger] cs@[k]) {
                    crate::num::lemma_digits_mono(cs@, i + 1);
                    assert(v * 10 + d > usize::MAX) by (nonlinear_arith)
                        requires v > (usize::MAX - d) / 10, d <= 9;
                }
            }
            return None;
        }
        v = v * 10 + d;
        i += 1;
    }
    assert(cs@.take(i as int) =~= cs@);
    Some(v)
}

/// The fields of a rule set that directives set.
pub struct DirState {
    pub ignored: Seq<char>,
    pub start_word: Seq<char>,
    pub n_iter: usize,
    pub define: Seq<(Seq<char>, i64)>,
    pub imports: Seq<(Seq<char>, Seq<char>)>,
}

pub open spec fn dir_of(ctx: IterCtx) -> DirState {
    DirState {
        ignored: ctx.ignored@,
        start_word: ctx.start_word@,
        n_iter: ctx.n_iter,
        define: table_view(ctx.define@),
        imports: ctx.imports@.map_values(|e: (String, String)| (e.0@, e.1@)),
    }
}

/// The effect of one directive node (see `read_preproc`).
pub open spec fn dir_step(st: DirState, ast: AstNode) -> DirState {
    DirState {
        ignored: if is_directive(ast, seq!['i', 'g', 'n', 'o', 'r', 'e']) && ast.children@.len() > 0 {
            ast.children@[0].data@
        } else {
            st.ignored
        },
        start_word: if is_directive(ast, seq!['a', 'x', 'i', 'o', 'm']) && ast.children@.len() > 0 {
            ast.children@[0].data@
        } else {
            st.start_word
        },
        n_iter: if is_directive(ast, seq!['n', 'i', 't', 'e', 'r']) && ast.children@.len() > 0
            && count_value(ast.children@[0].data@) is Some {
            count_value(ast.children@[0].data@)->Some_0
        } else {
            st.n_iter
        },
        define: if is_directive(ast, seq!['d', 'e', 'f', 'i', 'n', 'e']) && ast.children@.len() > 1
            && decimal_param(ast, 1) is Some {
            st.define.push((ast.children@[0].data@, decimal_param(ast, 1)->Some_0))
        } else {
            st.define
        },
        imports: if is_directive(ast, seq!['i', 'n', 'c', 'l', 'u', 'd', 'e']) && ast.children@.len() > 1 {
            st.imports.push((ast.children@[0].data@, ast.children@[1].data@))
        } else {
            st.imports
        },
    }
}

proof fn lemma_dir_step(o: IterCtx, n: IterCtx, ast: AstNode)
    requires
        n.ignored == (if is_directive(ast, seq!['i', 'g', 'n', 'o', 'r', 'e']) && ast.children@.len() > 0 {
            ast.children@[0].data
        } else {
            o.ignored
        }),
        n.start_word == (if is_directive(ast, seq!['a', 'x', 'i', 'o', 'm']) && ast.children@.len() > 0 {
            ast.children@[0].data
        } else {
            o.start_word
        }),
        n.n_iter == dir_step(dir_of(o), ast).n_iter,
        n.define@ == (if is_directive(ast, seq!['d', 'e', 'f', 'i', 'n', 'e']) && ast.children@.len() > 1
            && decimal_param(ast, 1) is Some {
            o.define@.push((ast.children@[0].data, decimal_param(ast, 1)->Some_0))
        } else {
            o.define@
        }),
        n.imports@ == (if is_directive(ast, seq!['i', 'n', 'c', 'l', 'u', 'd', 'e']) && ast.children@.len() > 1 {
            o.imports@.push((ast.children@[0].data, ast.children@[1].data))
        } else {
            o.imports@
        }),
    ensures
        dir_of(n) == dir_step(dir_of(o), ast),
{
    let d = dir_step(dir_of(o), ast);
    assert(dir_of(n).define =~= d.define);
    assert(dir_of(n).imports =~= d.imports);
}

/// The node is the directive `w`.
pub open spec fn is_directive(ast: AstNode, w: Seq<char>) -> bool {
    ast.node_type == TokenType::Preproc && ast.data@ == w
}

pub open spec fn decimal_param(ast: AstNode, k: int) -> Option<i64> {
    let t = ast.children@[k].data@;
    if is_decimal(t) && fits_i64(decimal_value(t)) { Some(decimal_value(t) as i64) } else { None }
}

/// Applies a directive to the rule set: `ignore` sets the ignored glyphs,
/// the start-word directive the start word, `niter` the number of
/// iterations, `define` adds a constant and the import directive an
/// imported rule file by alias. A directive whose parameters are missing or
/// malformed changes nothing.
pub fn read_preproc(ast: &AstNode, ctx: &mut IterCtx)
    ensures
        dir_of(*final(ctx)) == dir_step(dir_of(*old(ctx)), *ast),
        final(ctx).patterns@ == old(ctx).patterns@,
        final(ctx).objects@ == old(ctx).objects@,
        final(ctx).skipped@ == old(ctx).skipped@,
        final(ctx).ignored == (if is_directive(*ast, seq!['i', 'g', 'n', 'o', 'r', 'e']) && ast.children@.len() > 0 {
            ast.children@[0].data
        } else {
            old(ctx).ignored
        }),
        final(ctx).start_word == (if is_directive(*ast, seq!['a', 'x', 'i', 'o', 'm']) && ast.children@.len() > 0 {
            ast.children@[0].data
        } else {
            old(ctx).start_word
        }),
        final(ctx).n_iter == (if is_directive(*ast, seq!['n', 'i', 't', 'e', 'r']) && ast.children@.len() > 0
            && count_value(ast.children@[0].data@) is Some {
            count_value(ast.children@[0].data@)->Some_0
        } else {
            old(ctx).n_iter
        }),
        final(ctx).define@ == (if is_directive(*ast, seq!['d', 'e', 'f', 'i', 'n', 'e']) && ast.children@.len() > 1
            && decimal_param(*ast, 1) is Some {
            old(ctx).define@.push((ast.children@[0].data, decimal_param(*ast, 1)->Some_0))
        } else {
            old(ctx).define@
        }),
        final(ctx).imports@ == (if is_directive(*ast, seq!['i', 'n', 'c', 'l', 'u', 'd', 'e']) && ast.children@.len() > 1 {
            old(ctx).imports@.push((ast.children@[0].data, ast.children@[1].data))
        } else {
            old(ctx).imports@
        }),
{
    apply_directive(ast, ctx);
    proof {
        lemma_dir_step(*old(ctx), *final(ctx), *ast);
    }
}

fn apply_directive(ast: &AstNode, ctx: &mut IterCtx)
    ensures
        final(ctx).patterns@ == old(ctx).patterns@,
        final(ctx).objects@ == old(ctx).objects@,
        final(ctx).skipped@ == old(ctx).skipped@,
        final(ctx).ignored == (if is_directive(*ast, seq!['i', 'g', 'n', 'o', 'r', 'e']) && ast.children@.len() > 0 {
            ast.children@[0].data
        } else {
            old(ctx).ignored
        }),
        final(ctx).start_word == (if is_directive(*ast, seq!['a', 'x', 'i', 'o', 'm']) && ast.children@.len() > 0 {
            ast.children@[0].data
        } else {
            old(ctx).start_word
        }),
        final(ctx).n_iter == (if is_directive(*ast, seq!['n', 'i', 't', 'e', 'r']) && ast.children@.len() > 0
            && count_value(ast.children@[0].data@) is Some {
            count_value(ast.children@[0].data@)->Some_0
        } else {
            old(ctx).n_iter
        }),
        final(ctx).define@ == (if is_directive(*ast, seq!['d', 'e', 'f', 'i', 'n', 'e']) && ast.children@.len() > 1
            && decimal_param(*ast, 1) is Some {
            old(ctx).define@.push((ast.children@[0].data, decimal_param(*ast, 1)->Some_0))
        } else {
            old(ctx).define@
        }),
        final(ctx).imports@ == (if is_directive(*ast, seq!['i', 'n', 'c', 'l', 'u', 'd', 'e']) && ast.children@.len() > 1 {
            old(ctx).imports@.push((ast.children@[0].data, ast.children@[1].data))
        } else {
            old(ctx).imports@
        }),
{
    proof {
        lemma_words_differ();
    }
    if ast.node_type != TokenType::Preproc {
        return;
    }
    if text_is(&ast.data, vec!['i', 'g', 'n', 'o', 'r', 'e']) {
        if let Some(v) = get_param_value(ast, 0) {
            ctx.ignored = v;
        }
    } else if text_is(&ast.data, vec!['a', 'x', 'i', 'o', 'm']) {
        if let Some(v) = get_param_value(ast, 0) {
            ctx.start_word = v;
        }
    } else if text_is(&ast.data, vec!['n', 'i', 't', 'e', 'r']) {
        if let Some(v) = get_param_value(ast, 0) {
            if let Some(n) = parse_count(&v) {
                ctx.n_iter = n;
            }
        }
    } else if text_is(&ast.data, vec!['d', 'e', 'f', 'i', 'n', 'e']) {
        if let Some((name, value)) = get_define_value(ast, 0) {
            let cs = chars_of_string(&value);
            if let Some(v) = parse_decimal(&cs) {
                ctx.define.push((name, v));
            }
        }
    } else if text_is(&ast.data, vec!['i', 'n', 'c', 'l', 'u', 'd', 'e']) {
        if let Some((alias, file)) = get_define_value(ast, 0) {
            ctx.imports.push((alias, file));
        }
    }
}

/// The directive names are distinct.
proof fn lemma_words_differ()
    ensures
        seq!['i', 'g', 'n', 'o', 'r', 'e'] != seq!['a', 'x', 'i', 'o', 'm'],
        seq!['i', 'g', 'n', 'o', 'r', 'e'] != seq!['n', 'i', 't', 'e', 'r'],
        seq!['i', 'g', 'n', 'o', 'r', 'e'] != seq!['d', 'e', 'f', 'i', 'n', 'e'],
        seq!['i', 'g', 'n', 'o', 'r', 'e'] != seq!['i', 'n', 'c', 'l', 'u', 'd', 'e'],
        seq!['a', 'x', 'i', 'o', 'm'] != seq!['n', 'i', 't', 'e', 'r'],
        seq!['a', 'x', 'i', 'o', 'm'] != seq!['d', 'e', 'f', 'i', 'n', 'e'],
        seq!['a', 'x', 'i', 'o', 'm'] != seq!['i', 'n', 'c', 'l', 'u', 'd', 'e'],
        seq!['n', 'i', 't', 'e', 'r'] != seq!['d', 'e', 'f', 'i', 'n', 'e'],
        seq!['n', 'i', 't', 'e', 'r'] != seq!['i', 'n', 'c', 'l', 'u', 'd', 'e'],
        seq!['d', 'e', 'f', 'i', 'n', 'e'] != seq!['i', 'n', 'c', 'l', 'u', 'd', 'e'],
{
    assert(seq!['i', 'g', 'n', 'o', 'r', 'e'][1] != seq!['n', 'i', 't', 'e', 'r'][1]);
    assert(seq!['i', 'g', 'n', 'o', 'r', 'e'][1] != seq!['i', 'n', 'c', 'l', 'u', 'd', 'e'][1]);
    assert(seq!['i', 'g', 'n', 'o', 'r', 'e'][0] != seq!['d', 'e', 'f', 'i', 'n', 'e'][0]);
    assert(seq!['a', 'x', 'i', 'o', 'm'][0] != seq!['n', 'i', 't', 'e', 'r'][0]);
    assert(seq!['a', 'x', 'i', 'o', 'm'][0] != seq!['d', 'e', 'f', 'i', 'n', 'e'][0]);
    assert(seq!['n', 'i', 't', 'e', 'r'][0] != seq!['d', 'e', 'f', 'i', 'n', 'e'][0]);
    assert(seq!['n', 'i', 't', 'e', 'r'][0] != seq!['i', 'n', 'c', 'l', 'u', 'd', 'e'][0]);
    assert(seq!['d', 'e', 'f', 'i', 'n', 'e'][0] != seq!['i', 'n', 'c', 'l', 'u', 'd', 'e'][0]);
    assert(seq!['i', 'g', 'n', 'o', 'r', 'e'].len() != seq!['a', 'x', 'i', 'o', 'm'].len());
    assert(seq!['a', 'x', 'i', 'o', 'm'].len() != seq!['i', 'n', 'c', 'l', 'u', 'd', 'e'].len());
}

/// Productions of context rank `r`, in their order.
pub open spec fn with_rank(ps: Seq<Pattern>, r: int) -> Seq<Pattern>
    decreases ps.len(),
{
    if ps.len() == 0 {
        Seq::empty()
    } else {
        with_rank(ps.drop_last(), r) + if context_rank(ps.last()) == r {
            seq![ps.last()]
        } else {
            Seq::empty()
        }
    }
}

/// Productions sorted stably from most to least constrained by context.
pub open spec fn ordered(ps: Seq<Pattern>) -> Seq<Pattern> {
    with_rank(ps, 0) + with_rank(ps, 1) + with_rank(ps, 2)
}

pub fn order_patterns(ps: Vec<Pattern>) -> (r: Vec<Pattern>)
    ensures
        r@ == ordered(ps@),
{
    let ghost orig = ps@;
    let mut rest = ps;
    let mut b0: Vec<Pattern> = Vec::new();
    let mut b1: Vec<Pattern> = Vec::new();
    let mut b2: Vec<Pattern> = Vec::new();
    let ghost mut taken: int = 0;
    while rest.len() > 0
        invariant
            0 <= taken <= orig.len(),
            rest@ == orig.skip(taken),
            b0@ == with_rank(orig.take(taken), 0),
            b1@ == with_rank(orig.take(taken), 1),
            b2@ == with_rank(orig.take(taken), 2),
        decreases rest@.len(),
    {
        let p = rest.remove(0);
        proof {
            assert(p == orig[taken]);
            assert(orig.take(taken + 1).drop_last() =~= orig.take(taken));
            assert(orig.take(taken + 1).last() == p);
        }
        let k = p.rank();
        if k == 0 {
            b0.push(p);
        } else if k == 1 {
            b1.push(p);
        } else {
            b2.push(p);
        }
        proof {
            taken = taken + 1;
            assert(rest@ =~= orig.skip(taken));
            assert(b0@ =~= with_rank(orig.take(taken), 0));
            assert(b1@ =~= with_rank(orig.take(taken), 1));
            assert(b2@ =~= with_rank(orig.take(taken), 2));
        }
    }
    assert(orig.take(taken) =~= orig);
    b0.append(&mut b1);
    b0.append(&mut b2);
    b0
}

impl IterCtx {
    pub fn new() -> (r: IterCtx)
        ensures
            r.ignored@.len() == 0,
            r.start_word@.len() == 0,
            r.n_iter == 0,
            r.define@.len() == 0,
            r.imports@.len() == 0,
            r.patterns@.len() == 0,
            r.objects@.len() == 0,
            r.skipped@.len() == 0,
    {
        IterCtx {
            ignored: String::new(),
            start_word: String::new(),
            n_iter: 0,
            define: Vec::new(),
            imports: Vec::new(),
            patterns: Vec::new(),
            objects: Vec::new(),
            skipped: Vec::new(),
        }
    }
}

/// `prefix` followed by `s`.
fn joined(prefix: &Vec<char>, s: &str) -> (r: String)
    ensures
        r@ == prefix@ + s@,
{
    let mut v = prefix.clone();
    let mut t = crate::text::chars_of(s);
    v.append(&mut t);
    string_of(&v)
}

/// Rule nodes among parsed lines that give a production, in line order.
pub open spec fn good_rules(nodes: Seq<Option<Box<AstNode>>>) -> Seq<AstNode>
    decreases nodes.len(),
{
    if nodes.len() == 0 {
        Seq::empty()
    } else {
        let n = nodes.last();
        good_rules(nodes.drop_last()) + if n is Some && n->Some_0.node_type == TokenType::Rule && rule_ok(*n->Some_0) {
            seq![*n->Some_0]
        } else {
            Seq::empty()
        }
    }
}

pub open spec fn empty_dirs() -> DirState {
    DirState { ignored: Seq::empty(), start_word: Seq::empty(), n_iter: 0, define: Seq::empty(), imports: Seq::empty() }
}

/// The directive fields after the directive lines among the parsed lines,
/// applied in order from `st`.
pub open spec fn dirs_after(st: DirState, nodes: Seq<Option<Box<AstNode>>>) -> DirState
    decreases nodes.len(),
{
    if nodes.len() == 0 {
        st
    } else {
        let d = dirs_after(st, nodes.drop_last());
        let n = nodes.last();
        if n is Some && n->Some_0.node_type != TokenType::Rule { dir_step(d, *n->Some_0) } else { d }
    }
}

/// The rule set loaded from `lines`: each line parsed (`nodes`), the
/// productions `ps` made from the rule lines that give one, in line order,
/// sorted stably by context rank; the directive fields folded over the
/// directive lines from empty ones.
pub open spec fn loaded(lines: Seq<Seq<char>>, nodes: Seq<Option<Box<AstNode>>>, ps: Seq<Pattern>, r: IterCtx) -> bool {
    &&& nodes.len() == lines.len()
    &&& forall|k: int| 0 <= k < lines.len() ==> parse_post(#[trigger] lines[k], nodes[k])
    &&& ps.len() == good_rules(nodes).len()
    &&& forall|j: int| 0 <= j < ps.len() ==> made_from(#[trigger] ps[j], good_rules(nodes)[j])
    &&& r.patterns@ == ordered(ps)
    &&& dir_of(r) == dirs_after(empty_dirs(), nodes)
}

/// Reads a rule file: directives fill the rule set, rules become
/// productions, malformed lines are skipped and listed with the reason; the
/// productions end sorted from most to least constrained by context.
pub fn parse_rules(data: &str) -> (r: IterCtx)
    ensures
        exists|nodes: Seq<Option<Box<AstNode>>>, ps: Seq<Pattern>| loaded(split_lines(data@), nodes, ps, r),
        forall|k: int| 0 <= k < r.patterns@.len() ==> (#[trigger] r.patterns@[k]).wf(),
        forall|a: int, b: int| 0 <= a < b < r.patterns@.len()
            ==> context_rank(r.patterns@[a]) <= context_rank(r.patterns@[b]),
{
    let mut ctx = IterCtx::new();
    let mut result: Vec<Pattern> = Vec::new();
    let lines = lines_of(data);
    let ghost ls = strings_view(lines@);
    let ghost mut nodes: Seq<Option<Box<AstNode>>> = Seq::empty();
    assert(dir_of(ctx) =~= empty_dirs()) by {
        assert(dir_of(ctx).ignored =~= Seq::<char>::empty());
        assert(dir_of(ctx).start_word =~= Seq::<char>::empty());
        assert(dir_of(ctx).define =~= Seq::<(Seq<char>, i64)>::empty());
        assert(dir_of(ctx).imports =~= Seq::<(Seq<char>, Seq<char>)>::empty());
    }
    let mut i: usize = 0;
    while i < lines.len()
        invariant
            i <= lines@.len(),
            ls == strings_view(lines@),
            ls == split_lines(data@),
            nodes.len() == i,
            forall|k: int| 0 <= k < i ==> parse_post(#[trigger] ls[k], nodes[k]),
            result@.len() == good_rules(nodes).len(),
            forall|j: int| 0 <= j < result@.len() ==> made_from(#[trigger] result@[j], good_rules(nodes)[j]),
            forall|k: int| 0 <= k < result@.len() ==> 0 <= (#[trigger] result@[k]).p <= SCALE,
            dir_of(ctx) == dirs_after(empty_dirs(), nodes),
        decreases lines.len() - i,
    {
        let parsed = parse(lines[i].as_str());
        let ghost before_nodes = nodes;
        let ghost before_result = result@;
        proof {
            nodes = nodes.push(parsed);
            assert(nodes.drop_last() =~= before_nodes);
            assert(ls[i as int] == lines@[i as int]@);
        }
        match parsed {
            Some(ast) => {
                if ast.node_type == TokenType::Rule {
                    match create_rule(&ast) {
                        Ok(r) => {
                            result.push(r);
                            assert(good_rules(nodes) == good_rules(before_nodes) + seq![*ast]);
                            assert forall|j: int| 0 <= j < result@.len() implies made_from(#[trigger] result@[j], good_rules(nodes)[j]) by {
                                if j < before_result.len() {
                                    assert(result@[j] == before_result[j]);
                                    assert(good_rules(nodes)[j] == good_rules(before_nodes)[j]);
                                }
                            }
                        },
                        Err(e) => {
                            assert(good_rules(nodes) =~= good_rules(before_nodes));
                            ctx.skipped.push(joined(&crate::text::chars_of("Error while creating rule: "), e));
                        },
                    }
                } else {
                    assert(good_rules(nodes) =~= good_rules(before_nodes));
                    read_preproc(&ast, &mut ctx);
                }
            },
            None => {
                assert(good_rules(nodes) =~= good_rules(before_nodes));
                if chars_of_string(&lines[i]).len() > 0 {
                    ctx.skipped.push(joined(&crate::text::chars_of("Invalid rule: "), lines[i].as_str()));
                }
            },
        }
        i += 1;
    }
    let ordered_pats = order_patterns(result);
    proof {
        lemma_ordered_props(result@);
    }
    ctx.patterns = ordered_pats;
    proof {
        assert(loaded(split_lines(data@), nodes, result@, ctx));
    }
    ctx
}

proof fn lemma_with_rank_props(ps: Seq<Pattern>, r: int)
    ensures
        forall|k: int| 0 <= k < with_rank(ps, r).len() ==> context_rank(#[trigger] with_rank(ps, r)[k]) == r,
        forall|k: int| 0 <= k < with_rank(ps, r).len() ==> ps.contains(#[trigger] with_rank(ps, r)[k]),
    decreases ps.len(),
{
    if ps.len() > 0 {
        lemma_with_rank_props(ps.drop_last(), r);
        let w = with_rank(ps, r);
        let w0 = with_rank(ps.drop_last(), r);
        assert forall|k: int| 0 <= k < w.len() implies context_rank(#[trigger] w[k]) == r && ps.contains(w[k]) by {
            if k < w0.len() {
                assert(w[k] == w0[k]);
                assert(ps.drop_last().contains(w0[k]));
                let j = choose|j: int| 0 <= j < ps.drop_last().len() && ps.drop_last()[j] == w0[k];
                assert(ps[j] == w0[k]);
            } else {
                assert(w[k] == ps.last());
                assert(ps[ps.len() - 1] == ps.last());
            }
        }
    }
}

proof fn lemma_ordered_props(ps: Seq<Pattern>)
    ensures
        forall|k: int| 0 <= k < ordered(ps).len() ==> ps.contains(#[trigger] ordered(ps)[k]),
        forall|a: int, b: int| 0 <= a < b < ordered(ps).len()
            ==> context_rank(ordered(ps)[a]) <= context_rank(ordered(ps)[b]),
{
    lemma_with_rank_props(ps, 0);
    lemma_with_rank_props(ps, 1);
    lemma_with_rank_props(ps, 2);
    let w0 = with_rank(ps, 0);
    let w1 = with_rank(ps, 1);
    let w2 = with_rank(ps, 2);
    let o = ordered(ps);
    assert forall|k: int| 0 <= k < o.len() implies ps.contains(#[trigger] o[k]) && 0 <= context_rank(o[k]) <= 2
        && (k < w0.len() ==> context_rank(o[k]) == 0)
        && (w0.len() <= k < w0.len() + w1.len() ==> context_rank(o[k]) == 1)
        && (k >= w0.len() + w1.len() ==> context_rank(o[k]) == 2) by {
        if k < w0.len() {
            assert(o[k] == w0[k]);
        } else if k < w0.len() + w1.len() {
            assert(o[k] == w1[k - w0.len()]);
        } else {
            assert(o[k] == w2[k - w0.len() - w1.len()]);
        }
    }
}

} // verus!
