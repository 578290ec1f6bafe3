use depgraph::json::{parse, Json};
use depgraph::lang::jsonc::{is_white_space, strip_jsonc_comments, strip_trailing_commas};

#[test]
fn comments_go_and_strings_stay() {
    assert_eq!(strip_jsonc_comments("{ // one\n \"a\": 1 }"), "{ \n \"a\": 1 }");
    assert_eq!(strip_jsonc_comments("{ /* one\n two */ \"a\": 1 }"), "{  \"a\": 1 }");
    assert_eq!(strip_jsonc_comments("\"http://x\""), "\"http://x\"");
    assert_eq!(strip_jsonc_comments("\"a\\\"//b\" // c"), "\"a\\\"//b\" ");
    assert_eq!(strip_jsonc_comments("a / b"), "a / b");
    assert_eq!(strip_jsonc_comments("x/"), "x/");
    assert_eq!(strip_jsonc_comments("/*/ x */y"), "y");
    assert_eq!(strip_jsonc_comments("/* open"), "");
    assert_eq!(strip_jsonc_comments("// open"), "");
    assert_eq!(strip_jsonc_comments("\"open \\"), "\"open \\");
}

#[test]
fn stripping_comments_twice_is_stripping_them_once() {
    for s in ["{ // a\n/* b */ \"c//d\": 1/2 }", "a//b\n/**/c", "\"/*\"/*x*/\"*/\""] {
        let once = strip_jsonc_comments(s);
        assert_eq!(strip_jsonc_comments(&once), once);
    }
    assert_eq!(strip_jsonc_comments("{\"no\": [\"slash\"]}"), "{\"no\": [\"slash\"]}");
}

#[test]
fn what_holds_no_comment_stays() {
    for s in ["{\"a\": 1/2}", "\"//\" / \"/*\"", "/", "a/ /b", "* / *", "\"\\\"//\""] {
        assert_eq!(strip_jsonc_comments(s), s);
    }
}

#[test]
fn what_holds_no_trailing_comma_stays() {
    for s in ["[1, 2]", "{\",]\": [1, {}]}", ",", "\"\\\",]\"", ", x ]"] {
        assert_eq!(strip_trailing_commas(s), s);
    }
}

#[test]
fn stripping_only_leaves_characters_out() {
    for s in ["{ // a\n/* b */ \"c//d\": 1/2, }", "[1, /*,]*/ 2 , ]", "\"//,]\",//]\n]"] {
        for r in [strip_jsonc_comments(s), strip_trailing_commas(s)] {
            let mut rest = s.chars();
            assert!(r.chars().all(|c| rest.any(|d| d == c)), "{r} of {s}");
        }
    }
}

#[test]
fn trailing_commas_go_and_strings_stay() {
    assert_eq!(strip_trailing_commas("[1, 2, ]"), "[1, 2 ]");
    assert_eq!(strip_trailing_commas("{\"a\": [1,],}"), "{\"a\": [1]}");
    assert_eq!(strip_trailing_commas("[1,\n\t\u{a0}\u{3000}]"), "[1\n\t\u{a0}\u{3000}]");
    assert_eq!(strip_trailing_commas("\",]\""), "\",]\"");
    assert_eq!(strip_trailing_commas("\"\\\",]\",]"), "\"\\\",]\"]");
    assert_eq!(strip_trailing_commas("1,,}"), "1,}");
    assert_eq!(strip_trailing_commas("1,"), "1,");
}

#[test]
fn stripping_commas_takes_nothing_else() {
    for s in ["[1,2,]", "{\"a,]\":1,}", ",,,]", "x"] {
        let left: String = strip_trailing_commas(s).chars().filter(|c| *c != ',').collect();
        let want: String = s.chars().filter(|c| *c != ',').collect();
        assert_eq!(left, want);
    }
    assert_eq!(strip_trailing_commas("{\"no\": 1}"), "{\"no\": 1}");
}

#[test]
fn white_space_is_that_of_unicode() {
    for n in 0..0x3100u32 {
        if let Some(c) = char::from_u32(n) {
            assert_eq!(is_white_space(c), c.is_whitespace(), "{n:x}");
        }
    }
}

#[test]
fn json_values_are_read() {
    let j = parse("{\"b\": [1.5, true, null], \"a\": {\"x\": \"y\"}, \"b\": 2}").unwrap();
    assert!(matches!(j.get("b"), Some(Json::Number(n)) if n == "2"));
    assert_eq!(j.get("a").unwrap().get_text("x"), Some(&"y".to_string()));
    assert!(j.get("a").unwrap().get_text("z").is_none());
    assert!(j.get_text("a").is_none());
    assert!(j.get("c").is_none());
    assert!(parse("{\"a\": 1,}").is_none());
    assert!(parse("").is_none());
    assert!(parse("\"x\"").unwrap().get("x").is_none());
    let list = parse("[\"p\", false, null, 3]").unwrap();
    match list {
        Json::List(items) => {
            assert!(matches!(&items[0], Json::Text(s) if s == "p"));
            assert!(matches!(items[1], Json::Bool(false)));
            assert!(matches!(items[2], Json::Null));
            assert!(matches!(&items[3], Json::Number(n) if n == "3"));
        }
        _ => panic!("no list"),
    }
    let taken = parse("{\"exports\": {\".\": \"./x\"}, \"name\": \"n\"}").unwrap().into_member("exports").unwrap();
    assert_eq!(taken.get_text("."), Some(&"./x".to_string()));
}
