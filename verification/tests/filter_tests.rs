//! Tests of the LDAP filter rendering.

use simple_ldap::filter::{
    AndFilter, ContainsFilter, EqFilter, Filter, LikeFilter, NotFilter, OrFilter, WildardOn,
};

#[test]
fn test_eq_filter() {
    let filter = EqFilter::from("cn".to_string(), "test".to_string());
    assert_eq!(filter.filter(), "(cn=test)");
}

#[test]
fn test_not_eq_filter() {
    let filter = NotFilter::from(Box::new(EqFilter::from("cn".to_string(), "test".to_string())));
    assert_eq!(filter.filter(), "(!(cn=test))");
}

#[test]
fn test_pre_like_filter() {
    let filter = LikeFilter::from("cn".to_string(), "test".to_string(), WildardOn::Pre);
    assert_eq!(filter.filter(), "(cn=*test)");
}

#[test]
fn test_post_like_filter() {
    let filter = LikeFilter::from("cn".to_string(), "test".to_string(), WildardOn::Post);
    assert_eq!(filter.filter(), "(cn=test*)");
}

#[test]
fn test_or_filter() {
    let mut or_filter = OrFilter::default();
    or_filter.add(Box::new(EqFilter::from("cn".to_string(), "test".to_string())));
    or_filter.add(Box::new(EqFilter::from("cn".to_string(), "test2".to_string())));
    assert_eq!(or_filter.filter(), "(|(cn=test)(cn=test2))");
}

#[test]
fn test_and_filter() {
    let mut and_filter = AndFilter::default();
    and_filter.add(Box::new(EqFilter::from("cn".to_string(), "test".to_string())));
    and_filter.add(Box::new(EqFilter::from("cn".to_string(), "test2".to_string())));
    assert_eq!(and_filter.filter(), "(&(cn=test)(cn=test2))");
}

#[test]
fn test_contains_filter() {
    let filter = ContainsFilter::from("cn".to_string(), "test".to_string());
    assert_eq!(filter.filter(), "(cn=*test*)");
}

#[test]
fn test_empty_and_filter() {
    let and_filter = AndFilter::new();
    assert_eq!(and_filter.filter(), "(&)");
}

#[test]
fn test_nested_filters() {
    let mut inner = OrFilter::new();
    inner.add(Box::new(EqFilter::from("sn".to_string(), "Doe".to_string())));
    inner.add(Box::new(ContainsFilter::from("mail".to_string(), "example".to_string())));
    let mut outer = AndFilter::default();
    outer.add(Box::new(EqFilter::from("objectClass".to_string(), "person".to_string())));
    outer.add(Box::new(inner));
    assert_eq!(outer.filter(), "(&(objectClass=person)(|(sn=Doe)(mail=*example*)))");
}
