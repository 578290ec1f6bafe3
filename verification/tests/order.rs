use depgraph::order::{place, sort_places, Place, TextSet};
use depgraph::text::{
    chars_of, copy_texts, ends_in, holds, join2, join3, one_of, same, split_on, string_of, trimmed_end, trimmed_start,
    with_char_replaced, with_text_replaced,
};
use std::cmp::Ordering;

const WORDS: [&str; 9] = ["", "a", "A", "ab", "b", "ä", "z", "日本", "a/b"];

fn strings(list: &[&str]) -> Vec<String> {
    list.iter().map(|s| s.to_string()).collect()
}

#[test]
fn texts_are_ordered_as_strings_are() {
    for a in WORDS {
        for b in WORDS {
            let want = match a.cmp(b) {
                Ordering::Less => Place::Before,
                Ordering::Equal => Place::Same,
                Ordering::Greater => Place::After,
            };
            assert_eq!(place(a, b) == want, true, "{a} {b}");
            assert_eq!(same(a, b), a == b);
            for c in WORDS {
                if place(a, b) == Place::Before && place(b, c) == Place::Before {
                    assert!(place(a, c) == Place::Before);
                }
            }
        }
        assert!(place(a, a) == Place::Same);
    }
}

#[test]
fn sets_list_themselves_in_order() {
    let mut set = TextSet::new();
    for w in ["b", "a", "c", "a", "", "ä"] {
        set.insert(w.to_string());
    }
    assert_eq!(set.items, ["", "a", "b", "c", "ä"]);
    assert!(set.contains("c") && !set.contains("d"));
    assert_eq!(set.copy().items, set.items);
}

#[test]
fn sorting_keeps_what_is_equal_in_order() {
    let keys = strings(&["b", "a", "b", "", "a", "c", "b"]);
    assert_eq!(sort_places(&keys), [3, 1, 4, 0, 2, 6, 5]);
    let mut many: Vec<String> = Vec::new();
    for i in 0..500usize {
        many.push(format!("{}", (i * 7919) % 97));
    }
    let mut want: Vec<usize> = (0..many.len()).collect();
    want.sort_by(|x, y| many[*x].cmp(&many[*y]));
    assert_eq!(sort_places(&many), want);
    assert!(sort_places(&Vec::new()).is_empty());
}

#[test]
fn texts_are_split_and_joined() {
    for s in ["", "a", "/", "a/b", "/a//b/"] {
        let want: Vec<String> = s.split('/').map(|p| p.to_string()).collect();
        assert_eq!(split_on(s, '/'), want);
        assert_eq!(trimmed_start(s, '/'), s.trim_start_matches('/'));
        assert_eq!(trimmed_end(s, '/'), s.trim_end_matches('/'));
        assert_eq!(with_char_replaced(s, '/', '.'), s.replace('/', "."));
        assert_eq!(with_text_replaced(s, '/', "::"), s.replace('/', "::"));
        for end in ["", "b", "/", "a/b", "xa/b"] {
            assert_eq!(ends_in(s, end), s.ends_with(end));
        }
    }
    assert_eq!(join2("a", "b"), "ab");
    assert_eq!(join3("a", "", "c"), "ac");
    assert_eq!(string_of(&chars_of("häuser"), 1, 4), "äus");
}

#[test]
fn texts_are_found_in_lists() {
    let list = strings(&["x", "y"]);
    assert!(holds(&list, "y") && !holds(&list, "z"));
    assert!(one_of(&["x", "y"], "x") && !one_of(&[], "x"));
    assert_eq!(copy_texts(&list), list);
}
