//! Tests of the simple distinguished-name type.

use std::cmp::Ordering;

use simple_ldap::SimpleDN;

static EXAMPLE_DN: &str = "CN=Yabukita,OU=Green,OU=Tea,DC=Japan";

/// Get a SimpleDN corresponding to `EXAMPLE_DN` above.
fn example_simple_dn() -> SimpleDN {
    SimpleDN::parse(EXAMPLE_DN).unwrap()
}

#[test]
fn parse_simple_rdn_ok() {
    let key = "CN";
    let value = "Tea Drinker";

    let unstructured = String::new() + key + "=" + value;

    let rdn = SimpleDN::parse(&unstructured).unwrap();

    assert_eq!(key, rdn.get_type());
    assert_eq!(value, rdn.get(key).unwrap());
}

#[test]
fn parse_simple_rdn_fail() {
    let key = "CN";
    let value = "Tea Drinker";

    let unstructured = String::new() + key + "=" + value + "+ANOTHER=5";

    let parse_result = SimpleDN::parse(&unstructured);

    let errors = parse_result.unwrap_err();

    println!("{errors:#?}");
}

#[test]
fn parse_sipmle_dn_ok() {
    let parsed_dn = SimpleDN::parse(EXAMPLE_DN).unwrap();

    assert_eq!(parsed_dn, example_simple_dn());
}

#[test]
fn dispaly_simple_dn() {
    let displayed = example_simple_dn().to_string();
    assert_eq!(displayed, EXAMPLE_DN);
}

#[test]
fn get() {
    let example_dn = example_simple_dn();

    assert_eq!(example_dn.get("OU"), Some("Green"));
    assert_eq!(example_dn.get("CN"), Some("Yabukita"));
    assert_eq!(example_dn.get("Nonsense"), None);
}

#[test]
fn get_type() {
    assert_eq!(example_simple_dn().get_type(), "CN");
}

#[test]
fn get_parent() {
    let parent = example_simple_dn().parent();
    let correct_parent = SimpleDN::parse("OU=Green,OU=Tea,DC=Japan").unwrap();

    assert_eq!(parent, Some(correct_parent.clone()));

    let no_parents = SimpleDN::parse("DC=Tea").unwrap();

    assert_eq!(no_parents.parent(), None);
}

#[test]
fn get_starting_from() {
    let example_dn = example_simple_dn();

    let got = example_dn.get_starting_from("OU");
    let correct = example_dn.parent();

    assert!(got.is_some());
    assert_eq!(got, correct);

    let non_existent = example_dn.get_starting_from("Coffee");
    assert_eq!(non_existent, None);
}

#[test]
fn get_type_starting_from() {
    let example_dn = example_simple_dn();

    let dn_type = example_dn.get_type();
    let starting_from = example_dn.get_starting_from(dn_type);

    // This should always be true.
    assert_eq!(starting_from, Some(example_dn));
}

#[test]
fn parse_rejects_empty() {
    assert!(SimpleDN::parse("").is_err());
}

#[test]
fn parse_rejects_missing_value() {
    assert!(SimpleDN::parse("CN=").is_err());
    assert!(SimpleDN::parse("=value").is_err());
    assert!(SimpleDN::parse("CN=a,,DC=b").is_err());
}

#[test]
fn parse_display_round_trip() {
    let text = "OU=Pu Erh,OU=Tea,DC=example,DC=org";
    let dn = SimpleDN::parse(text).unwrap();
    assert_eq!(dn.to_string(), text);
}

#[test]
fn partial_compare() {
    let reflexivity = example_simple_dn().partial_cmp(&example_simple_dn());
    assert_eq!(reflexivity, Some(Ordering::Equal));

    let great = SimpleDN::parse("DC=Big").unwrap();

    let lesser = SimpleDN::parse("OU=Medium,DC=Big").unwrap();

    assert_eq!(great.partial_cmp(&lesser), Some(Ordering::Greater));
    assert_eq!(lesser.partial_cmp(&great), Some(Ordering::Less));

    // To lesser
    let incomparable = SimpleDN::parse("OU=Else,DC=Big").unwrap();

    assert!(lesser.partial_cmp(&incomparable).is_none());
    assert!(incomparable.partial_cmp(&lesser).is_none());
}
