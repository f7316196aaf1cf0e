use acervo::naming::{safe_component, smart_title};

#[test]
fn strips_and_rewrites_unsafe_chars() {
    assert_eq!(safe_component("Part 1/2"), "Part 1-2");
    assert_eq!(safe_component(r#"Chapter 4: The Trial"#), "Chapter 4 The Trial");
    assert_eq!(safe_component("  spaced   out  "), "spaced out");
    assert_eq!(safe_component("..."), "_");
    assert_eq!(safe_component(""), "_");
}

#[test]
fn title_cases_all_caps() {
    assert_eq!(smart_title("THE DARK KNIGHT"), "The Dark Knight");
    assert_eq!(smart_title("john wick"), "John Wick");
}

#[test]
fn leaves_mixed_case_words_alone() {
    assert_eq!(smart_title("john McClane story"), "John McClane Story");
}

#[test]
fn lowercases_small_words_except_first() {
    assert_eq!(smart_title("the lord of the rings"), "The Lord of the Rings");
}

#[test]
fn safe_component_drops_control_and_reserved_characters() {
    assert_eq!(safe_component("a\u{1}b<c>d*e?f\"g"), "abcdefg");
    assert_eq!(safe_component("back\\slash|pipe"), "back-slash-pipe");
    assert_eq!(safe_component(". .name. ."), "name");
    assert_eq!(safe_component("tab\tand\nnewline"), "tabandnewline");
    assert_eq!(safe_component("wide\u{3000}  gap"), "wide gap");
}

#[test]
fn smart_title_collapses_whitespace_and_keeps_acronyms() {
    assert_eq!(smart_title("  the   FBI files "), "The FBI Files");
    assert_eq!(smart_title("A TALE OF TWO CITIES"), "A Tale of Two Cities");
    assert_eq!(smart_title(""), "");
}

#[test]
fn sanitizing_twice_changes_nothing_more() {
    for raw in ["Part 1/2", "  spaced   out  ", "...", "a\t\u{a0}b", "Chapter 4: The Trial", ".hidden.", ""] {
        let once = safe_component(raw);
        assert_eq!(safe_component(&once), once);
        assert!(!once.is_empty());
        assert!(!once.contains('/') && !once.contains(':') && !once.contains('\\'));
    }
}

#[test]
fn smart_title_only_changes_case_and_spacing() {
    let text = "  the LORD of\tthe rings  ";
    let t = smart_title(text);
    let words: Vec<&str> = text.split_whitespace().collect();
    assert_eq!(t.to_ascii_lowercase(), words.join(" ").to_ascii_lowercase());
    assert_eq!(t, "The LORD of the Rings");
    assert_eq!(smart_title("   "), "");
    assert_eq!(smart_title("x"), "X");
}

#[test]
fn words_with_capitals_come_back_in_place() {
    let text = "the iT crowd and NCIS";
    let t = smart_title(text);
    let words: Vec<&str> = text.split_whitespace().collect();
    let out: Vec<&str> = t.split(' ').collect();
    assert_eq!(out.len(), words.len());
    assert_eq!(out[1], "iT");
    assert_eq!(out[4], "NCIS");
    assert_eq!(t, "The iT Crowd and NCIS");
}
