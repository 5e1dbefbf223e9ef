use vstd::prelude::*;
use crate::arith::{Arith, Var};
use crate::lexer::{Token, TokenType, lex_from, next_token, number_end, tokens_view};
use crate::parse_rules::{group_len, group_start, literal_groups, literal_word_at};
use crate::num::{is_digit, num_text, lemma_num_text_reads_back};
use crate::symbol::{SymbolModel, symbol_text, values_of, values_text};
use crate::symbolstring::string_text;
use crate::text::alphabetic;

verus! {

/// A glyph that reads back as itself: not a digit, and none of the
/// characters that the lexer turns into separators or operators.
pub open spec fn plain_glyph(c: char) -> bool {
    &&& !is_digit(c)
    &&& c != '<' && c != '>' && c != '='
    &&& c != '(' && c != ')' && c != ':' && c != '#' && c != '@'
    &&& c != ' ' && c != '\n' && c != '\r'
}

/// A parameter given as a non-negative literal.
pub open spec fn literal_param(a: Arith) -> bool {
    &&& a is Var
    &&& a->Var_0.name is None
    &&& a->Var_0.value >= 0
}

/// A symbol with a plain glyph and non-negative literal parameters; the
/// brackets carry none.
pub open spec fn literal_symbol(m: SymbolModel) -> bool {
    &&& plain_glyph(m.glyph)
    &&& (m.glyph == '[' || m.glyph == ']') ==> m.params.len() == 0
    &&& forall|k: int| 0 <= k < m.params.len() ==> literal_param(#[trigger] m.params[k])
}

pub open spec fn literal_string(ms: Seq<SymbolModel>) -> bool {
    forall|k: int| 0 <= k < ms.len() ==> literal_symbol(#[trigger] ms[k])
}

pub open spec fn glyph_token(c: char) -> (TokenType, Seq<char>) {
    if c == '[' {
        (TokenType::Lpsep, seq![c])
    } else if c == ']' {
        (TokenType::Rpsep, seq![c])
    } else if c == ',' {
        (TokenType::Char, seq![c])
    } else if alphabetic(c) {
        (TokenType::Letter, seq![c])
    } else {
        (TokenType::Char, seq![c])
    }
}

/// Tokens of values separated by commas.
pub open spec fn values_tokens(vs: Seq<i64>) -> Seq<(TokenType, Seq<char>)>
    decreases vs.len(),
{
    if vs.len() == 0 {
        Seq::empty()
    } else if vs.len() == 1 {
        seq![(TokenType::Number, num_text(vs[0] as int))]
    } else {
        values_tokens(vs.drop_last()) + seq![(TokenType::Char, seq![',']), (TokenType::Number, num_text(vs.last() as int))]
    }
}

pub open spec fn symbol_tokens(m: SymbolModel) -> Seq<(TokenType, Seq<char>)> {
    if m.params.len() == 0 {
        seq![glyph_token(m.glyph)]
    } else {
        seq![glyph_token(m.glyph), (TokenType::Lpara, seq!['('])] + values_tokens(values_of(m))
            + seq![(TokenType::Rpara, seq![')'])]
    }
}

pub open spec fn string_tokens(ms: Seq<SymbolModel>) -> Seq<(TokenType, Seq<char>)>
    decreases ms.len(),
{
    if ms.len() == 0 {
        Seq::empty()
    } else {
        string_tokens(ms.drop_last()) + symbol_tokens(ms.last())
    }
}

pub proof fn lemma_string_text_append(a: Seq<SymbolModel>, b: Seq<SymbolModel>)
    ensures
        string_text(a + b) == string_text(a) + string_text(b),
    decreases b.len(),
{
    if b.len() == 0 {
        assert(a + b =~= a);
    } else {
        lemma_string_text_append(a, b.drop_last());
        assert((a + b).drop_last() =~= a + b.drop_last());
    }
}

pub proof fn lemma_string_tokens_append(a: Seq<SymbolModel>, b: Seq<SymbolModel>)
    ensures
        string_tokens(a + b) == string_tokens(a) + string_tokens(b),
    decreases b.len(),
{
    if b.len() == 0 {
        assert(a + b =~= a);
    } else {
        lemma_string_tokens_append(a, b.drop_last());
        assert((a + b).drop_last() =~= a + b.drop_last());
    }
}

/// A number run ends where the digits and the single dot end.
proof fn lemma_number_run(t: Seq<char>, q: int, n: int, i: int, dot: bool)
    requires
        0 <= q <= i <= q + n < t.len(),
        forall|k: int| q <= k < q + n ==> is_digit(#[trigger] t[k]) || t[k] == '.',
        forall|a: int, b: int| q <= a < b < q + n && t[a] == '.' ==> t[b] != '.',
        dot <==> exists|k: int| q <= k < i && t[k] == '.',
        !is_digit(t[q + n]) && t[q + n] != '.',
    ensures
        number_end(t, i, dot) == q + n,
    decreases q + n - i,
{
    if i < q + n {
        if t[i] == '.' {
            assert(!dot) by {
                if dot {
                    let k = choose|k: int| q <= k < i && t[k] == '.';
                    assert(t[i] != '.');
                }
            }
        }
        let d2 = dot || t[i] == '.';
        assert(d2 <==> exists|k: int| q <= k < i + 1 && t[k] == '.') by {
            if d2 && !dot {
                assert(q <= i < i + 1 && t[i] == '.');
            }
            if exists|k: int| q <= k < i + 1 && t[k] == '.' {
                let k = choose|k: int| q <= k < i + 1 && t[k] == '.';
                if k < i {
                    assert(dot);
                }
            }
        }
        lemma_number_run(t, q, n, i + 1, d2);
    }
}

/// The text of a value, followed by a character that is neither a digit
/// nor a dot, lexes as one number token.
proof fn lemma_lex_number(t: Seq<char>, q: int, v: int)
    requires
        0 <= v <= i64::MAX,
        0 <= q,
        q + num_text(v).len() < t.len(),
        t.subrange(q, q + num_text(v).len()) == num_text(v),
        !is_digit(t[q + num_text(v).len()]) && t[q + num_text(v).len()] != '.',
    ensures
        next_token(t, q) == (Some((TokenType::Number, num_text(v))), q + num_text(v).len()),
{
    lemma_num_text_reads_back(v);
    let nt = num_text(v);
    let n = nt.len() as int;
    assert forall|k: int| q <= k < q + n implies is_digit(#[trigger] t[k]) || t[k] == '.' by {
        assert(t[k] == nt[k - q]);
    }
    assert forall|a: int, b: int| q <= a < b < q + n && t[a] == '.' implies t[b] != '.' by {
        assert(t[a] == nt[a - q]);
        assert(t[b] == nt[b - q]);
    }
    assert(t[q] == nt[0]);
    lemma_number_run(t, q, n, q, false);
}

/// Values and the separating commas, followed by `,` or `)`, lex as their tokens.
proof fn lemma_lex_values(t: Seq<char>, q: int, vs: Seq<i64>)
    requires
        vs.len() > 0,
        forall|k: int| 0 <= k < vs.len() ==> vs[k] >= 0,
        0 <= q,
        q + values_text(vs).len() < t.len(),
        t.subrange(q, q + values_text(vs).len()) == values_text(vs),
        t[q + values_text(vs).len()] == ',' || t[q + values_text(vs).len()] == ')',
    ensures
        lex_from(t, q) == values_tokens(vs) + lex_from(t, q + values_text(vs).len()),
    decreases vs.len(),
{
    let vt = values_text(vs);
    if vs.len() == 1 {
        assert(vt == num_text(vs[0] as int));
        lemma_lex_number(t, q, vs[0] as int);
        lemma_num_text_reads_back(vs[0] as int);
        assert(lex_from(t, q) == seq![(TokenType::Number, num_text(vs[0] as int))] + lex_from(t, q + vt.len()));
    } else {
        let dl = vs.drop_last();
        let dt = values_text(dl);
        let last = vs.last() as int;
        let lt = num_text(last);
        assert(vt == dt + seq![','] + lt);
        assert(t.subrange(q, q + dt.len()) =~= dt) by {
            assert forall|k: int| 0 <= k < dt.len() implies t.subrange(q, q + dt.len())[k] == dt[k] by {
                assert(t.subrange(q, q + vt.len())[k] == vt[k]);
            }
        }
        assert(t[q + dt.len()] == ',') by {
            assert(t.subrange(q, q + vt.len())[dt.len() as int] == vt[dt.len() as int]);
        }
        lemma_lex_values(t, q, dl);
        let p = q + dt.len();
        lemma_num_text_reads_back(last);
        assert(t.subrange(p + 1, p + 1 + lt.len()) =~= lt) by {
            assert forall|k: int| 0 <= k < lt.len() implies t.subrange(p + 1, p + 1 + lt.len())[k] == lt[k] by {
                assert(t.subrange(q, q + vt.len())[dt.len() + 1 + k] == vt[dt.len() + 1 + k]);
            }
        }
        lemma_lex_number(t, p + 1, last);
        assert(next_token(t, p) == (Some((TokenType::Char, seq![','])), p + 1));
        assert(lex_from(t, p) == seq![(TokenType::Char, seq![','])] + lex_from(t, p + 1));
        assert(lex_from(t, p + 1) == seq![(TokenType::Number, lt)] + lex_from(t, p + 1 + lt.len()));
        assert(values_tokens(vs) == values_tokens(dl) + seq![(TokenType::Char, seq![',']), (TokenType::Number, lt)]);
        assert(lex_from(t, q) =~= values_tokens(vs) + lex_from(t, q + vt.len()));
    }
}

proof fn lemma_values_nonneg(m: SymbolModel)
    requires
        literal_symbol(m),
    ensures
        forall|k: int| 0 <= k < values_of(m).len() ==> values_of(m)[k] >= 0,
        forall|k: int| 0 <= k < values_of(m).len() ==> values_of(m)[k] == m.params[k]->Var_0.value,
{
    assert forall|k: int| 0 <= k < values_of(m).len() implies values_of(m)[k] >= 0
        && values_of(m)[k] == m.params[k]->Var_0.value by {
        assert(literal_param(m.params[k]));
    }
}

/// A literal symbol's text lexes as its tokens.
proof fn lemma_lex_symbol(t: Seq<char>, p: int, m: SymbolModel)
    requires
        literal_symbol(m),
        0 <= p,
        p + symbol_text(m).len() <= t.len(),
        t.subrange(p, p + symbol_text(m).len()) == symbol_text(m),
        p + symbol_text(m).len() < t.len() ==> plain_glyph(t[p + symbol_text(m).len()]),
    ensures
        lex_from(t, p) == symbol_tokens(m) + lex_from(t, p + symbol_text(m).len()),
{
    if m.params.len() > 0 {
        assert(t[p + 1] == symbol_text(m)[1]);
    }
    let st = symbol_text(m);
    assert(t[p] == st[0]);
    assert(st[0] == m.glyph);
    assert(next_token(t, p) == (Some(glyph_token(m.glyph)), p + 1));
    if m.params.len() == 0 {
        assert(lex_from(t, p) =~= symbol_tokens(m) + lex_from(t, p + 1));
    } else {
        let vs = values_of(m);
        lemma_values_nonneg(m);
        let vt = values_text(vs);
        assert(st == seq![m.glyph, '('] + vt + seq![')']);
        assert(t[p + 1] == '(') by {
            assert(t.subrange(p, p + st.len())[1] == st[1]);
        }
        assert(next_token(t, p + 1) == (Some((TokenType::Lpara, seq!['('])), p + 2));
        assert(t.subrange(p + 2, p + 2 + vt.len()) =~= vt) by {
            assert forall|k: int| 0 <= k < vt.len() implies t.subrange(p + 2, p + 2 + vt.len())[k] == vt[k] by {
                assert(t.subrange(p, p + st.len())[2 + k] == st[2 + k]);
            }
        }
        let e = p + 2 + vt.len();
        assert(t[e] == ')') by {
            assert(t.subrange(p, p + st.len())[2 + vt.len() as int] == st[2 + vt.len() as int]);
        }
        lemma_lex_values(t, p + 2, vs);
        assert(next_token(t, e) == (Some((TokenType::Rpara, seq![')'])), e + 1));
        assert(lex_from(t, e) == seq![(TokenType::Rpara, seq![')'])] + lex_from(t, e + 1));
        assert(lex_from(t, p + 1) == seq![(TokenType::Lpara, seq!['('])] + lex_from(t, p + 2));
        assert(lex_from(t, p) == seq![glyph_token(m.glyph)] + lex_from(t, p + 1));
        assert(lex_from(t, p) =~= symbol_tokens(m) + lex_from(t, e + 1));
    }
}

/// The text of a literal symbol string lexes as its tokens.
pub proof fn lemma_lex_literal_string(ms: Seq<SymbolModel>)
    requires
        literal_string(ms),
    ensures
        crate::lexer::lex(string_text(ms)) == string_tokens(ms),
{
    lemma_lex_suffix(ms, 0);
    assert(ms.skip(0) =~= ms);
}

proof fn lemma_lex_suffix(ms: Seq<SymbolModel>, k: int)
    requires
        literal_string(ms),
        0 <= k <= ms.len(),
    ensures
        lex_from(string_text(ms), string_text(ms.take(k)).len() as int) == string_tokens(ms.skip(k)),
    decreases ms.len() - k,
{
    let t = string_text(ms);
    lemma_string_text_append(ms.take(k), ms.skip(k));
    assert(ms.take(k) + ms.skip(k) =~= ms);
    if k == ms.len() {
        assert(ms.skip(k) =~= Seq::<SymbolModel>::empty());
        assert(string_text(ms.skip(k)) =~= Seq::<char>::empty());
    } else {
        lemma_lex_suffix(ms, k + 1);
        let m = ms[k];
        assert(literal_symbol(m));
        assert(ms.take(k + 1).drop_last() =~= ms.take(k));
        assert(ms.take(k + 1).last() == m);
        let p = string_text(ms.take(k)).len() as int;
        let st = symbol_text(m);
        assert(string_text(ms.take(k + 1)) == string_text(ms.take(k)) + st);
        lemma_string_text_append(ms.take(k + 1), ms.skip(k + 1));
        assert(ms.take(k + 1) + ms.skip(k + 1) =~= ms);
        assert(t.subrange(p, p + st.len()) =~= st);
        if k + 1 < ms.len() {
            let m2 = ms[k + 1];
            assert(literal_symbol(m2));
            lemma_string_text_append(seq![m2], ms.skip(k + 2));
            assert(seq![m2] + ms.skip(k + 2) =~= ms.skip(k + 1));
            assert(string_text(seq![m2]) == symbol_text(m2)) by {
                assert(seq![m2].drop_last() =~= Seq::<SymbolModel>::empty());
                assert(seq![m2].last() == m2);
                assert(string_text(Seq::<SymbolModel>::empty()) =~= Seq::<char>::empty());
                assert(string_text(seq![m2]) == string_text(seq![m2].drop_last()) + symbol_text(seq![m2].last()));
                assert(string_text(Seq::<SymbolModel>::empty()) + symbol_text(m2) =~= symbol_text(m2));
            }
            assert(symbol_text(m2)[0] == m2.glyph);
            assert(t[p + st.len()] == string_text(ms.skip(k + 1))[0]);
        }
        lemma_lex_symbol(t, p, m);
        lemma_string_tokens_append(seq![m], ms.skip(k + 1));
        assert(seq![m] + ms.skip(k + 1) =~= ms.skip(k));
        assert(string_tokens(seq![m]) =~= symbol_tokens(m)) by {
            assert(seq![m].drop_last() =~= Seq::<SymbolModel>::empty());
            assert(seq![m].last() == m);
            assert(string_tokens(Seq::<SymbolModel>::empty()) =~= Seq::<(TokenType, Seq<char>)>::empty());
            assert(string_tokens(seq![m]) == string_tokens(seq![m].drop_last()) + symbol_tokens(seq![m].last()));
        }
    }
}


proof fn lemma_values_tokens_shape(vs: Seq<i64>)
    requires
        vs.len() > 0,
    ensures
        values_tokens(vs).len() == 2 * vs.len() - 1,
        forall|j: int| 0 <= j < vs.len() ==> (#[trigger] values_tokens(vs)[2 * j]) == (TokenType::Number, num_text(vs[j] as int)),
        forall|j: int| 0 <= j < vs.len() - 1 ==> (#[trigger] values_tokens(vs)[2 * j + 1]) == (TokenType::Char, seq![',']),
    decreases vs.len(),
{
    if vs.len() > 1 {
        let dl = vs.drop_last();
        lemma_values_tokens_shape(dl);
        let vt = values_tokens(vs);
        let dt = values_tokens(dl);
        assert forall|j: int| 0 <= j < vs.len() implies (#[trigger] vt[2 * j]) == (TokenType::Number, num_text(vs[j] as int)) by {
            if j < dl.len() {
                assert(vt[2 * j] == dt[2 * j]);
                assert(dl[j] == vs[j]);
            }
        }
        assert forall|j: int| 0 <= j < vs.len() - 1 implies (#[trigger] vt[2 * j + 1]) == (TokenType::Char, seq![',']) by {
            if j < dl.len() - 1 {
                assert(vt[2 * j + 1] == dt[2 * j + 1]);
            }
        }
    }
}

proof fn lemma_symbol_tokens_shape(m: SymbolModel)
    requires
        literal_symbol(m),
    ensures
        symbol_tokens(m).len() == group_len(m.params.len()),
        symbol_tokens(m)[0] == glyph_token(m.glyph),
        m.params.len() > 0 ==> {
            &&& symbol_tokens(m)[1] == (TokenType::Lpara, seq!['('])
            &&& symbol_tokens(m)[1 + 2 * (m.params.len() as int)] == (TokenType::Rpara, seq![')'])
            &&& forall|j: int| 0 <= j < m.params.len() ==> (#[trigger] symbol_tokens(m)[2 + 2 * j])
                == (TokenType::Number, num_text(values_of(m)[j] as int))
            &&& forall|j: int| 0 <= j < m.params.len() - 1 ==> (#[trigger] symbol_tokens(m)[3 + 2 * j])
                == (TokenType::Char, seq![','])
        },
{
    if m.params.len() > 0 {
        let vs = values_of(m);
        lemma_values_tokens_shape(vs);
        let st = symbol_tokens(m);
        let vt = values_tokens(vs);
        assert forall|j: int| 0 <= j < m.params.len() implies (#[trigger] st[2 + 2 * j])
            == (TokenType::Number, num_text(values_of(m)[j] as int)) by {
            assert(st[2 + 2 * j] == vt[2 * j]);
        }
        assert forall|j: int| 0 <= j < m.params.len() - 1 implies (#[trigger] st[3 + 2 * j])
            == (TokenType::Char, seq![',']) by {
            assert(st[3 + 2 * j] == vt[2 * j + 1]);
        }
    }
}

/// Parameter counts of the symbols.
pub open spec fn param_counts(ms: Seq<SymbolModel>) -> Seq<nat> {
    Seq::new(ms.len(), |k: int| ms[k].params.len())
}

proof fn lemma_group_starts(ms: Seq<SymbolModel>, k: int)
    requires
        literal_string(ms),
        0 <= k <= ms.len(),
    ensures
        group_start(0, param_counts(ms), k) == string_tokens(ms.take(k)).len(),
    decreases k,
{
    if k > 0 {
        lemma_group_starts(ms, k - 1);
        assert(ms.take(k).drop_last() =~= ms.take(k - 1));
        assert(ms.take(k).last() == ms[k - 1]);
        lemma_symbol_tokens_shape(ms[k - 1]);
    } else {
        assert(ms.take(0) =~= Seq::<SymbolModel>::empty());
    }
}

/// The tokens of a literal string are literal words, one per symbol, with
/// the glyphs and the number texts of the symbols.
pub proof fn lemma_literal_groups(ms: Seq<SymbolModel>, t: Seq<Token>)
    requires
        literal_string(ms),
        tokens_view(t) == string_tokens(ms),
    ensures
        literal_groups(t, 0, param_counts(ms)),
        forall|k: int| 0 <= k < ms.len() ==> (#[trigger] t[group_start(0, param_counts(ms), k)]).val@ == seq![ms[k].glyph],
        forall|k: int, j: int| 0 <= k < ms.len() && 0 <= j < ms[k].params.len() ==>
            (#[trigger] t[group_start(0, param_counts(ms), k) + 2 + 2 * j]).val@ == num_text(values_of(ms[k])[j] as int),
{
    let ns = param_counts(ms);
    assert forall|k: int| 0 <= k < ms.len() implies {
        &&& literal_word_at(t, #[trigger] group_start(0, ns, k), ns[k])
        &&& t[group_start(0, ns, k)].val@ == seq![ms[k].glyph]
        &&& forall|j: int| 0 <= j < ms[k].params.len() ==>
            (#[trigger] t[group_start(0, ns, k) + 2 + 2 * j]).val@ == num_text(values_of(ms[k])[j] as int)
    } by {
        let m = ms[k];
        assert(literal_symbol(m));
        lemma_group_starts(ms, k);
        lemma_symbol_tokens_shape(m);
        let p = group_start(0, ns, k);
        let pre = ms.take(k);
        let post = ms.skip(k + 1);
        lemma_string_tokens_append(pre, seq![m] + post);
        lemma_string_tokens_append(seq![m], post);
        assert(pre + (seq![m] + post) =~= ms);
        lemma_string_tokens_single(m);
        let st = symbol_tokens(m);
        let whole = string_tokens(ms);
        assert(whole == string_tokens(pre) + (st + string_tokens(post)));
        assert(tokens_view(t).len() == t.len());
        assert(string_tokens(pre).len() == p);
        assert forall|q: int| 0 <= q < st.len() implies #[trigger] t[p + q]@ == st[q] by {
            assert(tokens_view(t)[p + q] == t[p + q]@);
            assert(whole[p + q] == st[q]);
        }
        assert(tokens_view(t)[p] == t[p]@);
        assert(whole[p] == st[0]);
        assert(t[p]@ == st[0]);
        if m.params.len() == 0 {
            if p + 1 < t.len() {
                assert(post.len() > 0) by {
                    if post.len() == 0 {
                        assert(string_tokens(post) =~= Seq::<(TokenType, Seq<char>)>::empty()) by {
                            assert(post =~= Seq::<SymbolModel>::empty());
                        }
                    }
                }
                let m2 = post[0];
                assert(m2 == ms[k + 1]);
                assert(literal_symbol(m2));
                lemma_symbol_tokens_shape(m2);
                lemma_string_tokens_append(seq![m2], post.skip(1));
                assert(seq![m2] + post.skip(1) =~= post);
                lemma_string_tokens_single(m2);
                assert(whole[p + 1] == symbol_tokens(m2)[0]);
                assert(tokens_view(t)[p + 1] == t[p + 1]@);
            }
        } else {
            let n = m.params.len() as int;
            assert(tokens_view(t)[p + 1] == t[p + 1]@);
            assert(whole[p + 1] == st[1]);
            assert(tokens_view(t)[p + 1 + 2 * n] == t[p + 1 + 2 * n]@);
            assert(whole[p + 1 + 2 * n] == st[1 + 2 * n]);
            assert forall|j: int| 0 <= j < n implies (#[trigger] t[p + 2 + 2 * j]).toktype == TokenType::Number by {
                assert(tokens_view(t)[p + 2 + 2 * j] == t[p + 2 + 2 * j]@);
                assert(whole[p + 2 + 2 * j] == st[2 + 2 * j]);
            }
            assert forall|j: int| 0 <= j < n - 1 implies (#[trigger] t[p + 3 + 2 * j]).toktype == TokenType::Char
                && t[p + 3 + 2 * j].val@ == seq![','] by {
                assert(tokens_view(t)[p + 3 + 2 * j] == t[p + 3 + 2 * j]@);
                assert(whole[p + 3 + 2 * j] == st[3 + 2 * j]);
            }
            assert forall|j: int| 0 <= j < ms[k].params.len() implies
                (#[trigger] t[p + 2 + 2 * j]).val@ == num_text(values_of(ms[k])[j] as int) by {
                assert(tokens_view(t)[p + 2 + 2 * j] == t[p + 2 + 2 * j]@);
                assert(whole[p + 2 + 2 * j] == st[2 + 2 * j]);
            }
        }
    }
    lemma_group_starts(ms, ms.len() as int);
    assert(ms.take(ms.len() as int) =~= ms);
}

pub proof fn lemma_string_tokens_nonempty(ms: Seq<SymbolModel>)
    requires
        ms.len() > 0,
        literal_string(ms),
    ensures
        string_tokens(ms).len() > 0,
{
    assert(literal_symbol(ms.last()));
    lemma_symbol_tokens_shape(ms.last());
}

proof fn lemma_string_tokens_single(m: SymbolModel)
    ensures
        string_tokens(seq![m]) == symbol_tokens(m),
{
    assert(seq![m].drop_last() =~= Seq::<SymbolModel>::empty());
    assert(seq![m].last() == m);
    assert(string_tokens(Seq::<SymbolModel>::empty()) =~= Seq::<(TokenType, Seq<char>)>::empty());
    assert(string_tokens(seq![m]) == string_tokens(seq![m].drop_last()) + symbol_tokens(seq![m].last()));
    assert(string_tokens(seq![m]) =~= symbol_tokens(m));
}

pub proof fn lemma_string_text_same(a: Seq<SymbolModel>, b: Seq<SymbolModel>)
    requires
        a.len() == b.len(),
        forall|k: int| 0 <= k < a.len() ==> symbol_text(#[trigger] a[k]) == symbol_text(b[k]),
    ensures
        string_text(a) == string_text(b),
    decreases a.len(),
{
    if a.len() > 0 {
        lemma_string_text_same(a.drop_last(), b.drop_last());
        assert(a.last() == a[a.len() - 1]);
    }
}

} // verus!
