use wordament_solver::dictionary::{Dictionary, VecDictionary};

fn build(words: &[&str]) -> VecDictionary {
    let source: Vec<String> = words.iter().map(|w| String::from(*w)).collect();
    VecDictionary::new(&source)
}

#[test]
fn word_and_terminal_agree() {
    let d = build(&["a", "ab", "ad"]);
    assert_eq!(VecDictionary::is_word(&d, "a"), (true, false));
    assert_eq!(VecDictionary::is_word(&d, "ab"), (true, true));
    assert_eq!(VecDictionary::is_word(&d, "ad"), (true, true));
    assert_eq!(VecDictionary::is_word(&d, "c"), (false, true));
}

#[test]
fn prefix_that_is_not_a_word() {
    let d = build(&["bad"]);
    assert_eq!(VecDictionary::is_word(&d, "b"), (false, false));
    assert_eq!(VecDictionary::is_word(&d, "ba"), (false, false));
    assert_eq!(VecDictionary::is_word(&d, "bad"), (true, true));
    assert_eq!(VecDictionary::is_word(&d, "bada"), (false, true));
    assert_eq!(VecDictionary::is_word(&d, "bb"), (false, true));
}

#[test]
fn empty_candidate_is_terminal() {
    let d = build(&["a"]);
    assert_eq!(VecDictionary::is_word(&d, ""), (false, true));
}

#[test]
fn candidate_outside_the_alphabet_is_terminal() {
    let d = build(&["ab"]);
    assert_eq!(VecDictionary::is_word(&d, "A"), (false, true));
    assert_eq!(VecDictionary::is_word(&d, "a "), (false, true));
}

#[test]
fn empty_dictionary_knows_nothing() {
    let d = build(&[]);
    assert_eq!(VecDictionary::is_word(&d, "a"), (false, true));
    assert_eq!(VecDictionary::to_string(&d), "");
}

#[test]
fn empty_source_strings_are_ignored() {
    let d = build(&["", "a", ""]);
    assert_eq!(VecDictionary::is_word(&d, "a"), (true, true));
    assert_eq!(VecDictionary::is_word(&d, ""), (false, true));
}

#[test]
fn repeated_insertion_changes_nothing() {
    let once = build(&["car", "cart"]);
    let thrice = build(&["car", "cart", "car", "car"]);
    for candidate in ["c", "ca", "car", "cart", "carts", "x", ""] {
        assert_eq!(
            VecDictionary::is_word(&once, candidate),
            VecDictionary::is_word(&thrice, candidate)
        );
    }
    assert_eq!(VecDictionary::to_string(&once), VecDictionary::to_string(&thrice));
}

#[test]
fn insertion_order_does_not_matter() {
    let longer_first = build(&["abc", "ab"]);
    let shorter_first = build(&["ab", "abc"]);
    for candidate in ["a", "ab", "abc", "abcd"] {
        assert_eq!(
            VecDictionary::is_word(&longer_first, candidate),
            VecDictionary::is_word(&shorter_first, candidate)
        );
    }
    assert_eq!(VecDictionary::is_word(&longer_first, "ab"), (true, false));
}

#[test]
fn terminal_stays_terminal_under_extension() {
    let d = build(&["ab", "ad", "a"]);
    assert_eq!(VecDictionary::is_word(&d, "ab"), (true, true));
    for c in ['a', 'b', 'z'] {
        let mut longer = String::from("ab");
        longer.push(c);
        assert_eq!(VecDictionary::is_word(&d, &longer), (false, true));
    }
    assert_eq!(VecDictionary::is_word(&d, "c"), (false, true));
    assert_eq!(VecDictionary::is_word(&d, "ca"), (false, true));
}

#[test]
fn printed_form_lists_each_node() {
    let d = build(&["ab", "a"]);
    assert_eq!(VecDictionary::to_string(&d), "a: is word -> \n- b: is word -> \n");
    let e = build(&["ba", "ab"]);
    assert_eq!(
        VecDictionary::to_string(&e),
        "a: not word -> \n- b: is word -> \nb: not word -> \n- a: is word -> \n"
    );
}
