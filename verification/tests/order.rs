use line_counter::order::{place_of, Place};

#[test]
fn equal_names_are_the_same() {
    assert_eq!(place_of("txt", "txt"), Place::Same);
    assert_eq!(place_of("", ""), Place::Same);
}

#[test]
fn smaller_character_comes_first() {
    assert_eq!(place_of("c", "rs"), Place::Before);
    assert_eq!(place_of("rs", "c"), Place::After);
    assert_eq!(place_of("txa", "txt"), Place::Before);
    assert_eq!(place_of("txt", "txa"), Place::After);
}

#[test]
fn shorter_name_comes_before_its_extensions() {
    assert_eq!(place_of("", "a"), Place::Before);
    assert_eq!(place_of("a", ""), Place::After);
    assert_eq!(place_of("md", "mdx"), Place::Before);
    assert_eq!(place_of("mdx", "md"), Place::After);
}

#[test]
fn upper_case_comes_before_lower_case() {
    assert_eq!(place_of("TXT", "txt"), Place::Before);
    assert_eq!(place_of("txt", "TXT"), Place::After);
}

#[test]
fn order_is_that_of_strings() {
    let names = ["", "a", "A", "ab", "b", "rs", "txt", "TXT", "\u{e9}", "\u{3053}", "z", "zz"];
    for a in names {
        for b in names {
            let expected = if a < b {
                Place::Before
            } else if a == b {
                Place::Same
            } else {
                Place::After
            };
            assert_eq!(place_of(a, b), expected);
        }
    }
}
