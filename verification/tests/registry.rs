use dns_registry::DomainName;
use dns_registry::RegistryError;

#[test]
fn test_dns() {
    let mut contract = DomainName::default();
    contract
        .set_owner(String::from("bob"), String::from("toto.fr"))
        .unwrap();
    assert_eq!(
        contract.get_owner(String::from("toto.fr")),
        Some(String::from("bob"))
    );
    contract
        .set_fqdn(
            String::from("bob"),
            String::from("www.toto.fr"),
            String::from("8.8.8.8"),
        )
        .unwrap();
    assert_eq!(
        contract.get_fqdn(String::from("www.toto.fr")),
        Some(String::from("8.8.8.8"))
    );
}

#[test]
fn first_claim_wins() {
    let mut reg = DomainName::new();
    reg.set_owner(String::from("alice"), String::from("toto.fr"))
        .unwrap();
    reg.set_owner(String::from("bob"), String::from("toto.fr"))
        .unwrap();
    assert_eq!(
        reg.get_owner(String::from("toto.fr")),
        Some(String::from("alice"))
    );
    reg.set_owner(String::from("alice"), String::from("toto.fr"))
        .unwrap();
    assert_eq!(
        reg.get_owner(String::from("toto.fr")),
        Some(String::from("alice"))
    );
}

#[test]
fn get_owner_before_claim() {
    let reg = DomainName::new();
    assert_eq!(reg.get_owner(String::from("toto.fr")), None);
    assert_eq!(reg.get_owner(String::from("")), None);
}

#[test]
fn empty_domain_rejected() {
    let mut reg = DomainName::new();
    assert_eq!(
        reg.set_owner(String::from("alice"), String::from("")),
        Err(RegistryError::EmptyDomain)
    );
    assert_eq!(reg.get_owner(String::from("")), None);
}

#[test]
fn owner_gated_record_writes() {
    let mut reg = DomainName::new();
    reg.set_owner(String::from("alice"), String::from("toto.fr"))
        .unwrap();
    reg.set_fqdn(
        String::from("alice"),
        String::from("www.toto.fr"),
        String::from("8.8.8.8"),
    )
    .unwrap();
    assert_eq!(
        reg.get_fqdn(String::from("www.toto.fr")),
        Some(String::from("8.8.8.8"))
    );
    // An identity that does not own the parent cannot overwrite: benign no-op.
    reg.set_fqdn(
        String::from("bob"),
        String::from("www.toto.fr"),
        String::from("1.1.1.1"),
    )
    .unwrap();
    assert_eq!(
        reg.get_fqdn(String::from("www.toto.fr")),
        Some(String::from("8.8.8.8"))
    );
}

#[test]
fn unclaimed_parent_is_a_no_op() {
    let mut reg = DomainName::new();
    reg.set_fqdn(
        String::from("alice"),
        String::from("www.toto.fr"),
        String::from("8.8.8.8"),
    )
    .unwrap();
    assert_eq!(reg.get_fqdn(String::from("www.toto.fr")), None);
}

#[test]
fn wrong_parent_is_a_no_op() {
    let mut reg = DomainName::new();
    reg.set_owner(String::from("alice"), String::from("toto.fr"))
        .unwrap();
    reg.set_fqdn(
        String::from("alice"),
        String::from("www.tata.fr"),
        String::from("8.8.8.8"),
    )
    .unwrap();
    assert_eq!(reg.get_fqdn(String::from("www.tata.fr")), None);
}

#[test]
fn owner_overwrites_own_record() {
    let mut reg = DomainName::new();
    reg.set_owner(String::from("alice"), String::from("toto.fr"))
        .unwrap();
    reg.set_fqdn(
        String::from("alice"),
        String::from("www.toto.fr"),
        String::from("8.8.8.8"),
    )
    .unwrap();
    reg.set_fqdn(
        String::from("alice"),
        String::from("www.toto.fr"),
        String::from("9.9.9.9"),
    )
    .unwrap();
    assert_eq!(
        reg.get_fqdn(String::from("www.toto.fr")),
        Some(String::from("9.9.9.9"))
    );
}

#[test]
fn malformed_address_rejected() {
    let mut reg = DomainName::new();
    reg.set_owner(String::from("alice"), String::from("toto.fr"))
        .unwrap();
    assert_eq!(
        reg.set_fqdn(
            String::from("alice"),
            String::from("www.toto.fr"),
            String::from("not-an-ip"),
        ),
        Err(RegistryError::MalformedAddress)
    );
    assert_eq!(reg.get_fqdn(String::from("www.toto.fr")), None);
    // A malformed address does not overwrite an existing record either.
    reg.set_fqdn(
        String::from("alice"),
        String::from("www.toto.fr"),
        String::from("8.8.8.8"),
    )
    .unwrap();
    assert_eq!(
        reg.set_fqdn(
            String::from("alice"),
            String::from("www.toto.fr"),
            String::from("999.0.0.1"),
        ),
        Err(RegistryError::MalformedAddress)
    );
    assert_eq!(
        reg.get_fqdn(String::from("www.toto.fr")),
        Some(String::from("8.8.8.8"))
    );
}

#[test]
fn malformed_fqdn_rejected() {
    let mut reg = DomainName::new();
    reg.set_owner(String::from("alice"), String::from("toto.fr"))
        .unwrap();
    assert_eq!(
        reg.set_fqdn(
            String::from("alice"),
            String::from("localhost"),
            String::from("8.8.8.8"),
        ),
        Err(RegistryError::MalformedFqdn)
    );
    assert_eq!(reg.get_fqdn(String::from("localhost")), None);
}

#[test]
fn four_label_record_governed_by_two_label_suffix() {
    let mut reg = DomainName::new();
    reg.set_owner(String::from("alice"), String::from("toto.fr"))
        .unwrap();
    // The parent of "a.b.toto.fr" under the two-label suffix rule is
    // "toto.fr", so its owner may bind the record.
    reg.set_fqdn(
        String::from("alice"),
        String::from("a.b.toto.fr"),
        String::from("10.0.200.7"),
    )
    .unwrap();
    assert_eq!(
        reg.get_fqdn(String::from("a.b.toto.fr")),
        Some(String::from("10.0.200.7"))
    );
}

#[test]
fn record_for_two_label_name_governed_by_itself() {
    let mut reg = DomainName::new();
    reg.set_owner(String::from("alice"), String::from("toto.fr"))
        .unwrap();
    reg.set_fqdn(
        String::from("alice"),
        String::from("toto.fr"),
        String::from("1.2.3.4"),
    )
    .unwrap();
    assert_eq!(
        reg.get_fqdn(String::from("toto.fr")),
        Some(String::from("1.2.3.4"))
    );
}
