//! Tests of the adapter chain, the paged-results driver and the
//! sort-order checks.

use simple_ldap::chain::{
    is_sorted_by, plan_search, run_paged_search, AdapterChain, AdapterConf, PAGED_RESULTS_OID,
};
use simple_ldap::filter::{AndFilter, EqFilter, Filter};
use simple_ldap::sort::adapter::SortBy;
use simple_ldap::sort::{SERVER_SIDE_SORT_REQUEST_OID, SERVER_SIDE_SORT_RESPONSE_OID};
use simple_ldap::{Attr, Control, Entry, Error};

fn person(cn: &str) -> Entry {
    Entry {
        dn: format!("CN={cn},OU=people,DC=example,DC=org"),
        attrs: vec![
            Attr { name: "objectClass".to_string(), values: vec!["person".to_string()] },
            Attr { name: "cn".to_string(), values: vec![cn.to_string()] },
        ],
    }
}

#[test]
fn paging_concatenates_all_pages_in_order() {
    let items: Vec<u32> = (0..10).collect();
    let outcome = run_paged_search(items.clone(), 3);
    assert_eq!(outcome.entries, items);
    // ceil(10 / 3) - 1 pages follow the first one.
    assert_eq!(outcome.continuations, 3);
}

#[test]
fn paging_continuation_counts() {
    assert_eq!(run_paged_search((0..6).collect::<Vec<u32>>(), 2).continuations, 2);
    assert_eq!(run_paged_search((0..5).collect::<Vec<u32>>(), 5).continuations, 0);
    assert_eq!(run_paged_search((0..1).collect::<Vec<u32>>(), 4).continuations, 0);
    assert_eq!(run_paged_search(Vec::<u32>::new(), 4).continuations, 0);
    assert_eq!(run_paged_search((0..4).collect::<Vec<u32>>(), 2).continuations, 1);
}

#[test]
fn paged_sorted_scenario() {
    // Page size 2, 3 entries, an objectClass=person filter and an
    // ascending cn sort.
    let filter = EqFilter::from("objectClass".to_string(), "person".to_string());
    assert_eq!(filter.filter(), "(objectClass=person)");

    // The server honours the critical sort control, so the result set
    // arrives already ordered by cn.
    let results = vec![person("alice"), person("bob"), person("carol")];

    let outcome = run_paged_search(results, 2);
    // Exactly one continuation page request is made.
    assert_eq!(outcome.continuations, 1);
    // The concatenated sequence has all three entries, still sorted.
    assert_eq!(outcome.entries.len(), 3);
    assert!(is_sorted_by(&outcome.entries, "cn", false));
}

#[test]
fn sort_order_checks() {
    let ascending = vec![person("alice"), person("bob"), person("carol")];
    assert!(is_sorted_by(&ascending, "cn", false));
    assert!(!is_sorted_by(&ascending, "cn", true));

    let descending: Vec<Entry> = ascending.iter().rev().cloned().collect();
    assert!(is_sorted_by(&descending, "cn", true));
    assert!(!is_sorted_by(&descending, "cn", false));

    let unsorted = vec![person("bob"), person("alice"), person("carol")];
    assert!(!is_sorted_by(&unsorted, "cn", false));
    assert!(!is_sorted_by(&unsorted, "cn", true));

    let single = vec![person("zed")];
    assert!(is_sorted_by(&single, "cn", false));
    assert!(is_sorted_by(&single, "cn", true));
}

#[test]
fn ties_count_as_sorted_either_way() {
    let tied = vec![person("alice"), person("alice")];
    assert!(is_sorted_by(&tied, "cn", false));
    assert!(is_sorted_by(&tied, "cn", true));
}

#[test]
fn plan_attaches_controls_in_chain_order() {
    let chain = plan_search(vec![SortBy { attribute: "cn".to_string(), reverse: false }], 25)
        .unwrap();
    let controls = chain.start(&vec![]).unwrap();
    assert_eq!(controls.len(), 2);
    assert_eq!(controls[0].oid, PAGED_RESULTS_OID);
    assert!(!controls[0].critical);
    assert_eq!(controls[1].oid, SERVER_SIDE_SORT_REQUEST_OID);
    assert!(controls[1].critical);
    assert!(controls[1].value.is_some());
}

#[test]
fn plan_without_paging_or_sort_attaches_nothing() {
    let chain = plan_search(vec![], 0).unwrap();
    let controls = chain.start(&vec![]).unwrap();
    assert!(controls.is_empty());
}

#[test]
fn plan_rejects_duplicate_sort_attributes() {
    let result = plan_search(
        vec![
            SortBy { attribute: "cn".to_string(), reverse: false },
            SortBy { attribute: "cn".to_string(), reverse: true },
        ],
        10,
    );
    assert!(result.is_err());
}

#[test]
fn chain_rejects_preattached_sort_control() {
    let chain = plan_search(vec![SortBy { attribute: "cn".to_string(), reverse: false }], 0)
        .unwrap();
    let existing = vec![Control {
        oid: SERVER_SIDE_SORT_REQUEST_OID.to_string(),
        critical: true,
        value: None,
    }];
    let error = chain.start(&existing).unwrap_err();
    assert!(matches!(error, Error::ControlConflict(_)));
}

#[test]
fn chain_rejects_duplicate_paging_adapters() {
    let chain = AdapterChain::new(vec![
        AdapterConf::EntriesOnly,
        AdapterConf::PagedResults { page_size: 10 },
        AdapterConf::PagedResults { page_size: 20 },
    ]);
    let error = chain.start(&vec![]).unwrap_err();
    assert!(matches!(error, Error::ControlConflict(_)));
}

#[test]
fn and_filter_composes_for_group_queries() {
    let mut filter = AndFilter::default();
    filter.add(Box::new(EqFilter::from("objectClass".to_string(), "groupOfNames".to_string())));
    filter.add(Box::new(EqFilter::from(
        "member".to_string(),
        "uid=tea,ou=people,dc=example,dc=org".to_string(),
    )));
    assert_eq!(
        filter.filter(),
        "(&(objectClass=groupOfNames)(member=uid=tea,ou=people,dc=example,dc=org))"
    );
}

#[test]
fn chain_entry_check_follows_sort_adapter() {
    let sorted_chain =
        plan_search(vec![SortBy { attribute: "cn".to_string(), reverse: false }], 0).unwrap();
    let plain_chain = plan_search(vec![], 0).unwrap();

    let rejected = vec![Control {
        oid: SERVER_SIDE_SORT_RESPONSE_OID.to_string(),
        critical: false,
        value: Some(vec![0x30, 0x03, 0x0a, 0x01, 0x0b]),
    }];

    // Without a sort adapter nothing inspects the control.
    assert!(plain_chain.check_entry(&rejected).is_ok());
    // With one, a non-success code is the logic-fatal condition.
    let error = sorted_chain.check_entry(&rejected).unwrap_err();
    assert!(matches!(error, Error::SortRejected(_)));

    let success = vec![Control {
        oid: SERVER_SIDE_SORT_RESPONSE_OID.to_string(),
        critical: false,
        value: Some(vec![0x30, 0x03, 0x0a, 0x01, 0x00]),
    }];
    assert!(sorted_chain.check_entry(&success).is_ok());
    assert!(sorted_chain.check_entry(&vec![]).is_ok());
}

#[test]
fn sort_key_of_an_entry() {
    let entry = person("mio");
    assert_eq!(entry.sort_key_for("cn"), "mio");
    assert_eq!(entry.sort_key_for("missing"), "");
}
