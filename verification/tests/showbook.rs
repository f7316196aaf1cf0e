use acervo::showbook::ShowBook;

#[test]
fn each_show_is_resolved_once_and_picks_become_pins() {
    let mut book = ShowBook::new();
    let office = ShowBook::show_key("The Office", 2005);
    let same = ShowBook::show_key("the office", 2005);
    assert_eq!(office, same);
    assert_eq!(book.slot_of(&office), None);
    assert_eq!(book.settle(&office, "The Office", None), 0);
    assert_eq!(book.slot_of(&same), Some(0));
    assert!(!book.dirty);
    assert_eq!(book.pin_of(&office), None);
    // Settling again changes nothing.
    assert_eq!(book.settle(&same, "the office", Some(9)), 0);
    assert_eq!(book.pin_of(&office), None);
    // A show picked by hand is pinned and the book needs saving.
    let sev = ShowBook::show_key("Severance", 2022);
    assert_eq!(book.settle(&sev, "Severance", Some(44933)), 1);
    assert_eq!(book.pin_of(&sev), Some(44933));
    assert!(book.dirty);
}

#[test]
fn a_later_pin_of_the_same_show_wins() {
    let mut book = ShowBook::new();
    let k = ShowBook::show_key("Dark", 2017);
    book.pin(&k, 1, "Dark");
    book.pin(&ShowBook::show_key("DARK", 2017), 2, "DARK");
    assert_eq!(book.pin_of(&k), Some(2));
    assert_eq!(book.pins.len(), 1);
    assert!(!book.dirty);
}
