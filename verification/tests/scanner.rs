use jiter::errors::DEFAULT_RECURSION_LIMIT;
use jiter::parse::Parser;
use jiter::value::{skip_container, take_value_skip};

type SkipResult = Result<usize, (jiter::errors::JsonErrorType, usize)>;

fn per_value_skip(data: &[u8], allow_inf_nan: bool) -> SkipResult {
    let mut parser = Parser::new(data);
    let mut tape: Vec<u8> = Vec::new();
    parser
        .peek()
        .and_then(|peek| take_value_skip(peek, &mut parser, &mut tape, DEFAULT_RECURSION_LIMIT, allow_inf_nan))
        .map(|()| parser.index)
        .map_err(|e| (e.error_type, e.index))
}

fn edge_cases() -> Vec<String> {
    let deep = |n: usize| format!("{}1{}", "[".repeat(n), "]".repeat(n));
    vec![
        "[]".into(),
        "{}".into(),
        "[ ]".into(),
        "{ }".into(),
        r#"{"a":"}"}"#.into(),
        r#"["\"]", 1]"#.into(),
        r#"["\\"]"#.into(),
        r#"["\\\"]"]"#.into(),
        r#"["😀"]"#.into(),
        r#"["\ud83d"]"#.into(),
        r#"["\ude00"]"#.into(),
        r#"["\ud83dA"]"#.into(),
        r#"["\u12"]"#.into(),
        r#"["\x"]"#.into(),
        r#"["\"#.into(),
        "[\"\u{1}\"]".into(),
        "[\"\t\"]".into(),
        format!("[{}]", "\"x\",".repeat(30) + "1"),
        format!("{{\"k\":\"{}\"}}", "\\\\".repeat(70)),
        format!("{{\"k\":\"{}\\\"\"}}", "\\\\".repeat(31)),
        format!("[\"{}\"]", "a".repeat(200)),
        format!("[\"{}\\n\"]", "a".repeat(63)),
        format!("[\"{}\\u00e9\"]", "a".repeat(61)),
        format!("[{}1]", " ".repeat(63)),
        format!("[{}]", "1,".repeat(40) + "1"),
        format!("[{}12345]", " ".repeat(60)),
        format!("[{}true]", " ".repeat(61)),
        format!("[{}truex]", " ".repeat(61)),
        "[1,2".into(),
        r#"{"a":"unterminated}"#.into(),
        "[1,]".into(),
        r#"{"a":1,}"#.into(),
        "[,1]".into(),
        "[1 2]".into(),
        r#"{"a" 1}"#.into(),
        r#"{"a":}"#.into(),
        r#"{"a"}"#.into(),
        "{,}".into(),
        "{1:2}".into(),
        "[1}".into(),
        "{]".into(),
        r#"{"a":[1}]"#.into(),
        "[01]".into(),
        "[1.]".into(),
        "[1e]".into(),
        "[-]".into(),
        "[+1]".into(),
        "[.5]".into(),
        "[1.5e3]".into(),
        "[123abc]".into(),
        "[nul]".into(),
        "[nulll]".into(),
        "[NaN]".into(),
        "[Infinity]".into(),
        "[-Infinity]".into(),
        "[-Infinityx]".into(),
        "[Inf]".into(),
        "[\u{e9}]".into(),
        "[\u{1}]".into(),
        "[\"a\"\"b\"]".into(),
        "[1\"a\"]".into(),
        deep(199),
        deep(200),
        deep(201),
        deep(1000),
        // the container ends and what follows must not be looked at, even in the same block
        "[]\n\"\u{1}\"".into(),
        "[]\"\\x\"".into(),
        "{}}".into(),
        "[]]".into(),
        "[] x".into(),
        "{}\"\\ud83d\"".into(),
        "[1]\"unterminated".into(),
        "[[]]\"\u{1}".into(),
        format!("[]{}\"\u{1}\"", " ".repeat(70)),
        format!("[\"{}\"]\u{1}", "a".repeat(60)),
    ]
}

/// Shapes that straddle a 64-byte block edge or sit at the end of a block: escapes, long
/// tokens, and literals whose token is shorter than the literal.
fn block_edge_cases() -> Vec<String> {
    vec![
        // an escape straddling a block edge, the rest of the next block plain string content
        format!("[\"{}\\n{}\"]", "a".repeat(61), "b".repeat(70)),
        format!("[\"{}\\a{}\"]", "a".repeat(61), "b".repeat(70)),
        format!("[\"{}\\u00e9{}\"]", "a".repeat(61), "b".repeat(70)),
        format!("[\"{}\\u00g9{}\"]", "a".repeat(61), "b".repeat(70)),
        format!("[\"{}\\\"{}\"]", "a".repeat(61), "b".repeat(70)),
        format!("[\"{}\\\\{}\"]", "a".repeat(61), "b".repeat(70)),
        format!("[\"{}\\\\{}\"]", "a".repeat(62), "b".repeat(70)),
        format!("[\"{}\\ud83d\\ude00{}\"]", "a".repeat(58), "b".repeat(70)),
        format!("[\"{}\\ud83d\\ude00{}\"]", "a".repeat(55), "b".repeat(70)),
        format!("{}1{}", "{\"a\":".repeat(200), "}".repeat(200)),
        format!("{}1{}", "{\"a\":".repeat(201), "}".repeat(201)),
        // literals entirely inside a block, ending at its last byte or just before
        format!("[{}true]", " ".repeat(58)),
        format!("[{}null]", " ".repeat(58)),
        format!("[{}false]", " ".repeat(57)),
        format!("[{}true,1]", " ".repeat(30)),
        format!("[{}false,null,true]", " ".repeat(20)),
        format!("[{}truex]", " ".repeat(30)),
        // right length, wrong bytes: only the word compare can reject these
        format!("[{}trux]", " ".repeat(58)),
        format!("[{}nulx]", " ".repeat(30)),
        format!("[{}fxlse]", " ".repeat(30)),
        format!("[{}falsx]", " ".repeat(57)),
        format!("[{}fals]", " ".repeat(30)),
        format!("[{}nulll]", " ".repeat(30)),
        format!("[{}tru]", " ".repeat(58)),
        format!("[{}nul]", " ".repeat(30)),
        // a literal's first byte near the end of a block, the token shorter than the literal
        format!("[{}t,1]", " ".repeat(60)),
        format!("[{}fa,1]", " ".repeat(59)),
        format!("[{}nul]", " ".repeat(60)),
        format!("[{}true]", " ".repeat(59)),
        format!("[{}-5]", " ".repeat(60)),
        // tokens of a block or more, starting like a literal, a number, or nothing known
        format!("[{}]", "t".repeat(70)),
        format!("[{}]", "false".repeat(20)),
        format!("[{}]", "n".repeat(64)),
        format!("[{}]", "1".repeat(70)),
        format!("[{}]", "x".repeat(70)),
        format!("[{}]", "-".repeat(70)),
        format!("[{}.{}e{}]", "1".repeat(30), "2".repeat(30), "3".repeat(30)),
    ]
}


#[test]
fn edge_cases_agree_with_per_value_skip() {
    for case in edge_cases().iter().chain(&block_edge_cases()) {
        let data = case.as_bytes();
        for allow_inf_nan in [false, true] {
            let want = per_value_skip(data, allow_inf_nan);
            let got = skip_container(data, 0, DEFAULT_RECURSION_LIMIT, allow_inf_nan);
            assert_eq!(
                got,
                want.clone().ok(),
                "allow_inf_nan={allow_inf_nan} on {case:?}: per-value skip {want:?}"
            );
        }
    }
}

#[test]
fn honours_the_recursion_limit_given() {
    let nested = |n: usize| format!("{}1{}", "[".repeat(n), "]".repeat(n));
    for limit in [1u8, 2, 3, 10] {
        for n in 1..=12 {
            let data = nested(n);
            let got = skip_container(data.as_bytes(), 0, limit, false);
            assert_eq!(got.is_some(), n <= usize::from(limit), "limit {limit}, {n} deep");
        }
    }
}
