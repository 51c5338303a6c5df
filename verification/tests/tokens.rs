use kadouchi::tokens::{
    parse_anon_expression, parse_file, parse_float_literal, parse_int_literal, parse_list,
    parse_name_binding, parse_named_expression, parse_par_list, parse_path, parse_str_literal,
    parse_symbol, AnonExp, Call, Exp, Lit, Path, Sym,
};

fn sym(s: &str) -> Sym {
    Sym(s.to_string())
}

fn call_exp(names: &[&str], args: Vec<Exp>, bind: Option<&str>) -> Exp {
    Exp(
        AnonExp::Call(Call {
            path: Path(names.iter().map(|n| sym(n)).collect()),
            args,
        }),
        bind.map(sym),
    )
}

#[test]
fn test_parse_symbol_1() {
    let result = parse_symbol("hoge", 0);

    assert_eq!(result, Some((Sym("hoge".to_string()), 4)));
}

#[test]
fn test_parse_symbol_2() {
    let result = parse_symbol("hoge_fuga", 0);

    assert_eq!(result, Some((Sym("hoge_fuga".to_string()), 9)));
}

#[test]
fn test_parse_symbol_3() {
    let result = parse_symbol("hoge42fuga", 0);

    assert_eq!(result, Some((Sym("hoge42fuga".to_string()), 10)));
}

#[test]
fn test_parse_symbol_4() {
    let result = parse_symbol("1hoge", 0);

    assert!(result.is_none());
}

#[test]
fn test_parse_str_literal() {
    let result = parse_str_literal("\"test\"", 0);

    assert_eq!(result, Some((Lit::Str("test".to_string()), 6)));
}

#[test]
fn test_parse_int_literal() {
    let result = parse_int_literal("3483", 0);

    assert_eq!(result, Some((Lit::Int("3483".to_string()), 4)));
}

#[test]
fn test_parse_float_literal() {
    let result = parse_float_literal("3483.4", 0);

    assert_eq!(result, Some((Lit::Float("3483.4".to_string()), 6)));
}

#[test]
fn test_parse_path() {
    let result = parse_path("hoge.fuga.piyo", 0);

    assert_eq!(
        result,
        Some((Path(vec![sym("hoge"), sym("fuga"), sym("piyo")]), 14))
    );
}

#[test]
fn test_parse_par_list_1() {
    let result = parse_par_list("(hoge.fuga.piyo second third)", 0);

    assert_eq!(
        result,
        Some((
            vec![
                call_exp(&["hoge", "fuga", "piyo"], vec![], None),
                call_exp(&["second"], vec![], None),
                call_exp(&["third"], vec![], None),
            ],
            29
        ))
    );
}

#[test]
fn test_parse_par_list_2() {
    let result = parse_par_list("(single)", 0);

    assert_eq!(result, Some((vec![call_exp(&["single"], vec![], None)], 8)));
}

#[test]
fn test_parse_par_list_3() {
    let result = parse_par_list("()", 0);

    assert_eq!(result, Some((vec![], 2)));
}

#[test]
fn test_parse_name_binding() {
    let result = parse_name_binding("as piyo", 0);

    assert_eq!(result, Some((Sym("piyo".to_string()), 7)));
}

#[test]
fn test_parse_exp_1() {
    let result = parse_named_expression("hoge(first second third) as fuga", 0);

    assert_eq!(
        result,
        Some((
            call_exp(
                &["hoge"],
                vec![
                    call_exp(&["first"], vec![], None),
                    call_exp(&["second"], vec![], None),
                    call_exp(&["third"], vec![], None),
                ],
                Some("fuga")
            ),
            32
        ))
    );
}

#[test]
fn test_parse_exp_2() {
    let result = parse_named_expression("hoge", 0);

    assert_eq!(result, Some((call_exp(&["hoge"], vec![], None), 4)));
}

#[test]
fn test_parse_exp_3() {
    let result = parse_named_expression("hoge(first second third)", 0);

    assert_eq!(
        result,
        Some((
            call_exp(
                &["hoge"],
                vec![
                    call_exp(&["first"], vec![], None),
                    call_exp(&["second"], vec![], None),
                    call_exp(&["third"], vec![], None),
                ],
                None
            ),
            24
        ))
    );
}

#[test]
fn test_parse_exp_4() {
    let result = parse_named_expression("hoge as fuga", 0);

    assert_eq!(result, Some((call_exp(&["hoge"], vec![], Some("fuga")), 12)));
}

#[test]
fn test_parse_exp_5() {
    let result = parse_named_expression("or() as day", 0);

    assert_eq!(result, Some((call_exp(&["or"], vec![], Some("day")), 11)));
}

#[test]
fn test_parse_exp_6() {
    let result = parse_named_expression("or(\"mon\") as day", 0);

    assert_eq!(
        result,
        Some((
            call_exp(
                &["or"],
                vec![Exp(AnonExp::Literal(Lit::Str("mon".to_string())), None)],
                Some("day")
            ),
            16
        ))
    );
}

#[test]
fn test_parse_list() {
    let result = parse_list("hoge fuga    piyo", 0);

    assert_eq!(
        result,
        (
            vec![
                call_exp(&["hoge"], vec![], None),
                call_exp(&["fuga"], vec![], None),
                call_exp(&["piyo"], vec![], None),
            ],
            17
        )
    );
}

#[test]
fn parse_file_accepts_whole_input() {
    let exps = parse_file("a(b) as c  \"lit\"").unwrap();
    assert_eq!(exps.len(), 2);
    assert_eq!(
        exps[1],
        Exp(AnonExp::Literal(Lit::Str("lit".to_string())), None)
    );
}

#[test]
fn parse_file_rejects_leftover_input() {
    assert!(parse_file("a(b) as c  )").is_err());
    assert!(parse_file("(a)").is_err());
    assert!(parse_file("\"unterminated").is_err());
}

#[test]
fn parse_anon_expression_literal_form() {
    let result = parse_anon_expression("\"x y\"", 0);
    assert_eq!(
        result,
        Some((AnonExp::Literal(Lit::Str("x y".to_string())), 5))
    );
}

#[test]
fn parse_float_literal_forms() {
    assert_eq!(
        parse_float_literal("-3.5e2", 0),
        Some((Lit::Float("-3.5e2".to_string()), 6))
    );
    assert_eq!(
        parse_float_literal(".25", 0),
        Some((Lit::Float(".25".to_string()), 3))
    );
    assert_eq!(
        parse_float_literal("7.", 0),
        Some((Lit::Float("7.".to_string()), 2))
    );
    // an exponent without digits is not part of the number
    assert_eq!(
        parse_float_literal("3e", 0),
        Some((Lit::Float("3".to_string()), 1))
    );
    assert_eq!(parse_float_literal("-", 0), None);
    assert_eq!(parse_float_literal("x1", 0), None);
}

#[test]
fn path_to_string_joins_with_dots() {
    let p = Path(vec![sym("a"), sym("b"), sym("c")]);
    assert_eq!(p.to_string(), "a.b.c".to_string());
    assert_eq!(Path(vec![sym("one")]).to_string(), "one".to_string());
    assert_eq!(Path(vec![]).to_string(), String::new());
}

#[test]
fn path_accessors() {
    let p = Path(vec![sym("a"), sym("b")]);
    assert_eq!(p.only_segment(), None);
    assert_eq!(p.head(), &"a".to_string());
    let q = Path(vec![sym("solo")]);
    assert_eq!(q.only_segment(), Some(&"solo".to_string()));
}

#[test]
fn exp_accessors() {
    let e = call_exp(&["f"], vec![], Some("g"));
    assert_eq!(e.bound_name(), Some(&"g".to_string()));
    assert!(e.call().is_some());
    assert!(e.lit().is_none());
    assert_eq!(e.call_args().len(), 0);
    let l = Exp(AnonExp::Literal(Lit::Int("1".to_string())), None);
    assert_eq!(l.bound_name(), None);
    assert!(l.call().is_none());
    assert_eq!(l.lit(), Some(&Lit::Int("1".to_string())));
    assert_eq!(l.call_args().len(), 0);
}
