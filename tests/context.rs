use plants::pattern::Pattern;
use plants::symbolstring::SymbolString;

fn test_rctx(s: &str, pat: &str) -> bool {
    let s = match SymbolString::from_string(s) {
        Ok(s) => s,
        _ => {
            return false;
        }
    };
    let ctx = match SymbolString::from_string(pat) {
        Ok(s) => s,
        _ => {
            return false;
        }
    };
    let (b, _) = Pattern::rctx(&s, &ctx, "");
    b
}

fn test_lctx(s: &str, pat: &str) -> bool {
    let s = match SymbolString::from_string(s) {
        Ok(s) => s,
        _ => {
            return false;
        }
    };
    let ctx = match SymbolString::from_string(pat) {
        Ok(s) => s,
        _ => {
            return false;
        }
    };
    let (b, _) = Pattern::lctx(&s, &ctx, "");
    b
}

#[test]
fn rctx_true() {
    let res = test_rctx("bc", "bc");
    assert!(res);
}

#[test]
fn rctx_false() {
    let res = test_rctx("bc", "d");
    assert!(!res);
}

#[test]
fn rctx_true_short() {
    let res = test_rctx("bc", "b");
    assert!(res);
}

#[test]
fn rctx_false_start() {
    let res = test_rctx("aabc", "bc");
    assert!(!res);
}

#[test]
fn lctx_true() {
    let res = test_lctx("bc", "bc");
    assert!(res);
}

#[test]
fn lctx_false() {
    let res = test_lctx("bc", "d");
    assert!(!res);
}

#[test]
fn lctx_true_short() {
    let res = test_lctx("abc", "bc");
    assert!(res);
}

#[test]
fn lctx_false_start() {
    let res = test_lctx("bca", "c");
    assert!(!res);
}

#[test]
fn lctx_bracket_true() {
    let res = test_lctx("bc[abdhj[gfh]][", "bc");
    assert!(res);
}

#[test]
fn lctx_bracket_false() {
    let res = test_lctx("bc[abdhj[gfh]][", "d");
    assert!(!res);
}

#[test]
fn rctx_bracket_neg_lvl_false() {
    let res = test_rctx("b]c", "bc");
    assert!(!res);
}

#[test]
fn rctx_bracket_true_simple() {
    let res = test_rctx("b[]c", "bc");
    assert!(res);
}

#[test]
fn rctx_bracket_true_with_branch() {
    let res = test_rctx("b[ae]c", "bc");
    assert!(res);
}

#[test]
fn rctx_bracket_cmp_branch() {
    let res = test_rctx("b[c]d", "b[c]d");
    assert!(res);
}

#[test]
fn rctx_bracket_cmp_branch_multiple_levels() {
    let res = test_rctx("b[c[ae]]d", "b[c]d");
    assert!(res);
}

#[test]
fn rctx_bracket_cmp_branch_complex() {
    let res = test_rctx("b[c[ae]kl]d", "b[c]d");
    assert!(res);
}

#[test]
fn rctx_bracket_cmp_branch_complex_2() {
    let res = test_rctx("b[c[ae]kl][vb]d", "b[c[a]][v]d");
    assert!(res);
}

#[test]
fn rctx_bracket_cmp_branch_false() {
    let res = test_rctx("b[c[ae]kl][vb]d", "b[c[aj]k][v]d");
    assert!(!res);
}

#[test]
fn rctx_captures_parameter_values() {
    let s = SymbolString::from_string("A(1)B(2.5,3)").unwrap();
    let ctx = SymbolString::from_string("A(x)B(y,z)").unwrap();
    let (b, vals) = Pattern::rctx(&s, &ctx, "");
    assert!(b);
    assert_eq!(vals, vec![1_000_000, 2_500_000, 3_000_000]);
}

#[test]
fn lctx_captures_in_order() {
    let s = SymbolString::from_string("A(1)B(2)").unwrap();
    let ctx = SymbolString::from_string("A(x)B(y)").unwrap();
    let (b, vals) = Pattern::lctx(&s, &ctx, "");
    assert!(b);
    assert_eq!(vals, vec![1_000_000, 2_000_000]);
}

#[test]
fn rctx_skips_ignored_glyphs() {
    assert!(!test_rctx("b+c", "bc"));
    let s = SymbolString::from_string("b+c").unwrap();
    let ctx = SymbolString::from_string("bc").unwrap();
    let (b, _) = Pattern::rctx(&s, &ctx, "+");
    assert!(b);
}
