use dns_registry::text::parent_of;

#[test]
fn parent_of_three_labels() {
    assert_eq!(parent_of("www.toto.fr"), Some(String::from("toto.fr")));
}

#[test]
fn parent_of_two_labels_is_the_name_itself() {
    assert_eq!(parent_of("toto.fr"), Some(String::from("toto.fr")));
}

#[test]
fn parent_of_keeps_only_the_last_two_labels() {
    assert_eq!(parent_of("a.b.toto.fr"), Some(String::from("toto.fr")));
    assert_eq!(parent_of("mail.a.b.toto.fr"), Some(String::from("toto.fr")));
}

#[test]
fn parent_of_needs_a_dot() {
    assert_eq!(parent_of("localhost"), None);
    assert_eq!(parent_of(""), None);
}

#[test]
fn parent_of_keeps_empty_labels() {
    assert_eq!(parent_of("toto.fr."), Some(String::from("fr.")));
    assert_eq!(parent_of("www..fr"), Some(String::from(".fr")));
}
