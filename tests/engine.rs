use plants::arith::{Arith, ArithOp, OpType, Var};
use plants::bool_exp::{Bool, BoolExp, CompOp, CompType};
use plants::grammar::{prepare, run};
use plants::iter_ctx::{IterCtx, LightCtx};
use plants::iterate::{iterate, iterate_with};
use plants::lexer::{lexer, TokenType};
use plants::num::{parse_decimal, push_num};
use plants::parse_rules::{create_rule, parse, parse_rules, pat};
use plants::pattern::Pattern;
use plants::symbol::Symbol;
use plants::symbolstring::SymbolString;
use rand::rngs::StdRng;
use rand::SeedableRng;
use std::cmp::Ordering;

fn num_text(v: i64) -> String {
    let mut out = Vec::new();
    push_num(&mut out, v);
    out.into_iter().collect()
}

fn rules_ctx(text: &str) -> Vec<(String, IterCtx)> {
    let mut ctx = parse_rules(text);
    for p in ctx.patterns.iter_mut() {
        p.rule_set(&"root".to_string());
    }
    vec![("root".to_string(), ctx)]
}

fn root_string(text: &str) -> SymbolString {
    let mut s = SymbolString::from_string(text).unwrap();
    s.rule_set(&"root".to_string());
    s
}

#[test]
fn lexer_reads_two_character_operators_first() {
    let toks = lexer("a<=b>=c!=d->e");
    let kinds: Vec<TokenType> = toks.iter().map(|t| t.toktype).collect();
    assert_eq!(
        kinds,
        vec![
            TokenType::Letter,
            TokenType::CompOp,
            TokenType::Letter,
            TokenType::CompOp,
            TokenType::Letter,
            TokenType::CompOp,
            TokenType::Letter,
            TokenType::Patsep,
            TokenType::Letter
        ]
    );
    assert_eq!(toks[1].val, "<=");
    assert_eq!(toks[3].val, ">=");
}

#[test]
fn lexer_reads_numbers_with_one_dot() {
    let toks = lexer("F(1.25.5)");
    assert_eq!(toks[2].toktype, TokenType::Number);
    assert_eq!(toks[2].val, "1.25");
    assert_eq!(toks[3].toktype, TokenType::Char);
    assert_eq!(toks[3].val, ".");
    assert_eq!(toks[4].val, "5");
    assert_eq!(toks[5].toktype, TokenType::Rpara);
}

#[test]
fn lexer_skips_line_breaks() {
    let toks = lexer("a\nb");
    assert_eq!(toks.len(), 2);
}

#[test]
fn decimal_literals() {
    assert_eq!(parse_decimal(&"2".chars().collect()), Some(2_000_000));
    assert_eq!(parse_decimal(&"0.5".chars().collect()), Some(500_000));
    assert_eq!(parse_decimal(&"-1.25".chars().collect()), Some(-1_250_000));
    assert_eq!(parse_decimal(&"3.1415926".chars().collect()), Some(3_141_592));
    assert_eq!(parse_decimal(&"1.2.3".chars().collect()), None);
    assert_eq!(parse_decimal(&"x".chars().collect()), None);
    assert_eq!(parse_decimal(&"99999999999999".chars().collect()), None);
}

#[test]
fn number_text() {
    assert_eq!(num_text(2_000_000), "2");
    assert_eq!(num_text(500_000), "0.5");
    assert_eq!(num_text(-1_250_000), "-1.25");
    assert_eq!(num_text(1), "0.000001");
    assert_eq!(num_text(0), "0");
}

#[test]
fn arithmetic_evaluates_with_precedence() {
    let tokens = lexer("F(1+2*3,(1+2)*3,7/2-1)");
    let (ast, _) = pat(&tokens, 0);
    let s = SymbolString::from_ast(&ast.unwrap(), String::new()).unwrap();
    assert_eq!(s.symbols[0].get_vec(), vec![7_000_000, 9_000_000, 2_500_000]);
}

#[test]
fn arithmetic_saturates_and_divides_by_zero() {
    let big = ArithOp::new(&OpType::Mul, Var::new_value(i64::MAX), Var::new_value(3_000_000));
    assert_eq!(big.eval(), i64::MAX);
    let div = ArithOp::new(&OpType::Div, Var::new_value(1_000_000), Var::new_value(0));
    assert_eq!(div.eval(), i64::MAX);
}

#[test]
fn arithmetic_variables_bind() {
    let mut e = ArithOp::new(&OpType::Add, Var::new_name("x".to_string()), Var::new_name("y".to_string()));
    assert_eq!(e.vars(), vec!["x".to_string(), "y".to_string()]);
    assert!(e.set(&"x".to_string(), 1_000_000).is_ok());
    assert!(e.set(&"z".to_string(), 1_000_000).is_err());
    assert!(e.set(&"y".to_string(), 2_000_000).is_ok());
    assert_eq!(e.eval(), 3_000_000);
}

#[test]
fn op_and_comparison_names() {
    assert_eq!(OpType::from("-"), OpType::Sub);
    assert_eq!(OpType::from("?"), OpType::Add);
    assert_eq!(CompType::from(">="), CompType::GreaterEq);
    assert_eq!(CompType::from("!="), CompType::NotEqual);
    assert_eq!(CompType::from("??"), CompType::Less);
}

#[test]
fn boolean_expressions() {
    let c = CompOp::new(&CompType::Less, Var::new_name("x".to_string()), Var::new_value(2_000_000));
    let mut b = BoolExp::copy(&c);
    assert!(b.set(&"x".to_string(), 1_000_000).is_ok());
    assert!(b.eval());
    assert!(!Bool::new(false).eval());
    let mut lit = Bool { value: true };
    assert!(lit.set(&"x".to_string(), 0).is_err());
    assert!(lit.vars().is_empty());
}

#[test]
fn symbol_text_round_trip() {
    let s = SymbolString::from_string("F(1,2.5)+[A(0.25)]B").unwrap();
    let text = s.to_string();
    assert_eq!(text, "F(1,2.5)+[A(0.25)]B");
    let again = SymbolString::from_string(&text).unwrap();
    assert_eq!(again.to_string(), text);
}

#[test]
fn symbol_with_values() {
    let s = Symbol::new_with_values('F', vec![1_500_000, 2_000_000], "root".to_string());
    assert_eq!(s.to_string(), "F(1.5,2)");
    assert_eq!(s.n_param(), 2);
    assert_eq!(s.get_i(1), Ok(2_000_000));
    assert!(s.get_i(2).is_err());
}

#[test]
fn alias_replacement() {
    let mut s = root_string("AXB");
    let value = SymbolString::from_string("CD").unwrap();
    s.replace(&"X".to_string(), &value);
    assert_eq!(s.to_string(), "ACDB");
}

#[test]
fn fibonacci_words() {
    let ctxs = rules_ctx("a -> ab\nb -> a\n");
    let mut s = root_string("a");
    let expected = ["a", "ab", "aba", "abaab"];
    assert_eq!(s.to_string(), expected[0]);
    for k in 1..4 {
        s = iterate_with(&s, &ctxs, &Vec::new()).unwrap();
        assert_eq!(s.to_string(), expected[k]);
    }
}

#[test]
fn fibonacci_words_with_rng_and_run() {
    let mut ctx = parse_rules("a -> ab\nb -> a\n#niter 3\n");
    ctx.start_word = "a".to_string();
    assert_eq!(ctx.n_iter, 3);
    let (list, start) = prepare(ctx, Vec::new()).unwrap();
    let mut rng = StdRng::seed_from_u64(7);
    let out = run(&list, start, 3, &mut rng).unwrap();
    assert_eq!(out.to_string(), "abaab");
}

#[test]
fn certain_rules_ignore_the_seed() {
    let ctxs = rules_ctx("A(x) -> A(x+1)B\nB -> [B]\n");
    let mut first = root_string("A(0)");
    let mut second = root_string("A(0)");
    let mut r1 = StdRng::seed_from_u64(1);
    let mut r2 = StdRng::seed_from_u64(99);
    for _ in 0..3 {
        first = iterate(&first, &ctxs, &mut r1).unwrap();
        second = iterate(&second, &ctxs, &mut r2).unwrap();
    }
    assert_eq!(first.to_string(), second.to_string());
    assert_eq!(first.to_string(), "A(3)B[B][[B]]");
}

#[test]
fn pass_without_match_keeps_string() {
    let ctxs = rules_ctx("Q -> QQ\n");
    let s = root_string("F(1)[+A]B");
    let out = iterate_with(&s, &ctxs, &Vec::new()).unwrap();
    assert_eq!(out.to_string(), s.to_string());
}

#[test]
fn probability_out_of_range_is_rejected() {
    let ast = parse("a@1.5->b").unwrap();
    assert!(create_rule(&ast).is_err());
    let ast = parse("a@0.5->b").unwrap();
    assert_eq!(create_rule(&ast).unwrap().p, 500_000);
    let sym = Symbol::new_with_values('a', Vec::new(), String::new());
    assert!(Pattern::new(sym, SymbolString::empty(), 1_000_001, None, None, None).is_none());
    let ctx = parse_rules("a@2->b\na->c\n");
    assert_eq!(ctx.patterns.len(), 1);
}

#[test]
fn zero_probability_never_applies() {
    let ctxs = rules_ctx("a@0->b\n");
    let s = root_string("a");
    let draws = vec![vec![0u64]];
    let out = iterate_with(&s, &ctxs, &draws).unwrap();
    assert_eq!(out.to_string(), "a");
}

#[test]
fn draw_gates_a_half_rule() {
    let ctxs = rules_ctx("a@0.5->b\n");
    let s = root_string("a");
    assert_eq!(iterate_with(&s, &ctxs, &vec![vec![499_999u64]]).unwrap().to_string(), "b");
    assert_eq!(iterate_with(&s, &ctxs, &vec![vec![500_000u64]]).unwrap().to_string(), "a");
}

#[test]
fn context_rule_binds_values_and_condition() {
    let ctxs = rules_ctx("A(x)<B(y)>C(z):x+y<z->B(x+y+z)\n");
    let s = root_string("A(1)B(2)C(5)");
    let out = iterate_with(&s, &ctxs, &Vec::new()).unwrap();
    assert_eq!(out.to_string(), "A(1)B(8)C(5)");
    let s = root_string("A(4)B(2)C(5)");
    let out = iterate_with(&s, &ctxs, &Vec::new()).unwrap();
    assert_eq!(out.to_string(), "A(4)B(2)C(5)");
}

#[test]
fn constants_resolve_free_variables() {
    let mut ctx = parse_rules("#define r 1.5\nA(x) -> A(x*r)\n");
    for p in ctx.patterns.iter_mut() {
        p.rule_set(&"root".to_string());
    }
    let ctxs = vec![("root".to_string(), ctx)];
    let out = iterate_with(&root_string("A(2)"), &ctxs, &Vec::new()).unwrap();
    assert_eq!(out.to_string(), "A(3)");
}

#[test]
fn unresolved_variable_is_an_error() {
    let ctxs = rules_ctx("A(x) -> A(q)\n");
    let r = iterate_with(&root_string("A(2)"), &ctxs, &Vec::new());
    assert_eq!(r.err(), Some("q".to_string()));
}

#[test]
fn pattern_test_gives_bound_copy() {
    let ctxs = rules_ctx("A(x) -> B(x*2)\n");
    let p = &ctxs[0].1.patterns[0];
    let s = root_string("A(3)");
    let light = LightCtx { ignored: String::new(), define: Vec::new() };
    let r = p.test(0, &s, &light, 0).unwrap().unwrap();
    assert_eq!(r.to_string(), "B(6)");
    assert_eq!(p.replacement.symbols[0].params[0].vars(), vec!["x".to_string()]);
}

#[test]
fn productions_sorted_by_context() {
    let ctx = parse_rules("a->x\nb<a->y\nb<a>c->z\na>c->w\n");
    let ranks: Vec<u8> = ctx.patterns.iter().map(|p| p.rank()).collect();
    assert_eq!(ranks, vec![0, 1, 1, 2]);
    assert_eq!(ctx.patterns[1].replacement.to_string(), "y");
    assert_eq!(ctx.patterns[0].cmp_pat(&ctx.patterns[3]), Ordering::Less);
    assert_eq!(ctx.patterns[3].cmp_pat(&ctx.patterns[0]), Ordering::Greater);
    assert_eq!(ctx.patterns[1].cmp_pat(&ctx.patterns[2]), Ordering::Equal);
}

#[test]
fn directives_fill_the_rule_set() {
    let ctx = parse_rules("#ignore +-\n#niter 12\n#define k 2\n");
    assert_eq!(ctx.ignored, "+-");
    assert_eq!(ctx.n_iter, 12);
    assert_eq!(ctx.define, vec![("k".to_string(), 2_000_000)]);
    let light = ctx.to_light_ctx();
    assert_eq!(light.ignored, "+-");
}

#[test]
fn imported_rule_sets_are_spliced() {
    let mut root = parse_rules("a -> aL\n");
    root.start_word = "a".to_string();
    let mut leaf = parse_rules("x -> xy\n");
    leaf.start_word = "x".to_string();
    let (list, start) = prepare(root, vec![("L".to_string(), leaf)]).unwrap();
    assert_eq!(list.len(), 2);
    let mut rng = StdRng::seed_from_u64(3);
    let out = run(&list, start, 2, &mut rng).unwrap();
    assert_eq!(out.to_string(), "axxy");
}

#[test]
fn object_header_text() {
    let mut ctx = IterCtx::new();
    ctx.objects.push(("leaf".to_string(), "leaf.obj".to_string()));
    assert_eq!(ctx.get_object_header(&"root".to_string(), &"dir".to_string()), "rootleaf dir/leaf.obj ");
}

#[test]
fn malformed_directives_change_nothing() {
    let ctx = parse_rules("#niter x1\n#define k abc\n#define\n#ignore\n");
    assert_eq!(ctx.n_iter, 0);
    assert!(ctx.define.is_empty());
    assert_eq!(ctx.ignored, "");
    assert!(ctx.check_complete().is_err());
}

#[test]
fn condition_on_a_parameter() {
    assert!(parse("a:x+->b").is_none());
    let ctxs = rules_ctx("A(x):x>1->B\n");
    let out = iterate_with(&root_string("A(0.5)A(2)"), &ctxs, &Vec::new()).unwrap();
    assert_eq!(out.to_string(), "A(0.5)B");
}

#[test]
fn boolean_connectives_in_conditions() {
    let ctxs = rules_ctx("A(x):!(x=1)&x<3|x=7->B\n");
    let out = iterate_with(&root_string("A(1)A(2)A(7)A(5)"), &ctxs, &Vec::new()).unwrap();
    assert_eq!(out.to_string(), "A(1)BA(7)B");
}

#[test]
fn rule_with_true_condition_and_missing_parts() {
    let ctxs = rules_ctx("a:true->b\n");
    let out = iterate_with(&root_string("a"), &ctxs, &Vec::new()).unwrap();
    assert_eq!(out.to_string(), "b");
    assert!(parse("->b").is_none());
}

#[test]
fn symbols_equal_by_glyph_and_arity() {
    let pattern = SymbolString::from_string("F(x)G(x,y)").unwrap();
    let subject = SymbolString::from_string("F(1)G(2)").unwrap();
    assert!(pattern.symbols[0] == subject.symbols[0]);
    assert!(pattern.symbols[1] != subject.symbols[1]);
    assert!(pattern.symbols[0].alike(&subject.symbols[0]));
}

#[test]
fn free_variable_names_in_order() {
    let mut s = SymbolString::from_string("F(x+y,x)G(z)").unwrap();
    assert_eq!(s.vars(), vec!["x".to_string(), "y".to_string(), "x".to_string(), "z".to_string()]);
    s.symbols[0].compute_var_names();
    assert_eq!(s.symbols[0].var_names, vec!["x".to_string(), "y".to_string(), "x".to_string()]);
    assert!(s.set(&"x".to_string(), 2_000_000).is_ok());
    assert!(s.set(&"w".to_string(), 2_000_000).is_err());
    assert_eq!(s.get_vec(), vec![2_000_000, 2_000_000, 0]);
    assert_eq!(s.n_params(), 3);
}

#[test]
fn parameters_set_by_position() {
    let mut s = SymbolString::from_string("F(x,y+z)G(w)").unwrap();
    assert!(s.symbols[0].set_i(0, 4_000_000).is_ok());
    assert!(s.symbols[0].set_i(1, 4_000_000).is_err());
    assert!(s.symbols[0].set_i(5, 4_000_000).is_err());
    assert_eq!(s.symbols[0].get(&"x".to_string()), Ok(4_000_000));
    assert!(s.symbols[0].get(&"y".to_string()).is_err());
    s.set_vec(&vec![1_000_000, 2_000_000, 3_000_000]);
    assert_eq!(s.get_vec(), vec![1_000_000, 0, 3_000_000]);
    let mut g = SymbolString::from_string("G(a,b)").unwrap();
    g.symbols[0].set_vec(&vec![7_000_000]);
    assert_eq!(g.symbols[0].get_vec(), vec![7_000_000, 0]);
    g.symbols[0].set_vec(&vec![1, 2]);
    assert_eq!(g.symbols[0].get_vec(), vec![7_000_000, 0]);
}

#[test]
fn malformed_lines_are_listed() {
    let ctx = parse_rules("a->b\n\n<<<\na@3->b\n");
    assert_eq!(ctx.patterns.len(), 1);
    assert_eq!(
        ctx.skipped,
        vec!["Invalid rule: <<<".to_string(), "Error while creating rule: Probability outside [0, 1].".to_string()]
    );
}

#[test]
fn rule_with_contexts_and_variables_loads() {
    let ctx = parse_rules("b<a(x)>c->d(x)\n");
    assert_eq!(ctx.patterns.len(), 1);
    let q = &ctx.patterns[0];
    assert_eq!(q.pattern.sym, 'a');
    assert_eq!(q.left.as_ref().unwrap().to_string(), "b");
    assert_eq!(q.right.as_ref().unwrap().to_string(), "c");
    assert!(q.cond.is_none());
    assert_eq!(q.p, 1_000_000);
    assert_eq!(q.replacement.symbols[0].sym, 'd');
}

#[test]
fn parenthesised_sum_keeps_all_terms() {
    let ctxs = rules_ctx("A(x,y,z)->B((x+y)*z)\n");
    let out = iterate_with(&root_string("A(1,2,3)"), &ctxs, &Vec::new()).unwrap();
    assert_eq!(out.to_string(), "B(9)");
}

#[test]
fn rejected_rule_leaves_the_rest() {
    let ctx = parse_rules("a@1.5->b\nb->a\n");
    assert_eq!(ctx.patterns.len(), 1);
    assert_eq!(ctx.patterns[0].pattern.sym, 'b');
    let ctx = parse_rules("#niter 4\n->ab\na->ab\n");
    assert_eq!(ctx.n_iter, 4);
    assert_eq!(ctx.patterns.len(), 1);
    assert_eq!(ctx.patterns[0].pattern.sym, 'a');
}

#[test]
fn round_trip_of_empty_and_sign_glyphs() {
    let e = SymbolString::from_string("").unwrap();
    assert_eq!(e.to_string(), "");
    let s = SymbolString::from_string("F(1)-!G(0.5)+").unwrap();
    assert_eq!(s.to_string(), "F(1)-!G(0.5)+");
    assert_eq!(SymbolString::from_string(&s.to_string()).unwrap().to_string(), s.to_string());
}
