//! Tests of the Server-Side-Sort adapter and its control codec.

use simple_ldap::sort::adapter::{ServerSideSort, SortBy};
use simple_ldap::sort::control::{
    decode_sort_request, decode_sort_response, encode_sort_request, ServerSideSortResponse,
    SortKey, SortResult,
};
use simple_ldap::sort::{SERVER_SIDE_SORT_REQUEST_OID, SERVER_SIDE_SORT_RESPONSE_OID};
use simple_ldap::{Control, Error};

fn sort_by(attribute: &str, reverse: bool) -> SortBy {
    SortBy { attribute: attribute.to_string(), reverse }
}

fn key(attribute: &str, reverse: bool) -> SortKey {
    SortKey { attribute_type: attribute.to_string(), ordering_rule: None, reverse_order: reverse }
}

#[test]
fn duplicate_sort_attributes_rejected() {
    let result = ServerSideSort::new(vec![sort_by("cn", false), sort_by("cn", true)]);
    let error = result.unwrap_err();
    let reported: Vec<String> = error.attributes().clone();
    assert_eq!(reported, vec!["cn".to_string()]);
}

#[test]
fn distinct_sort_attributes_accepted() {
    let result = ServerSideSort::new(vec![sort_by("cn", false), sort_by("sn", true)]);
    assert!(result.is_ok());
}

#[test]
fn encode_single_key_exact_bytes() {
    let value = encode_sort_request(&vec![key("cn", false)]);
    assert_eq!(
        value,
        vec![0x30, 0x09, 0x30, 0x07, 0x04, 0x02, 0x63, 0x6e, 0x81, 0x01, 0x00]
    );
}

#[test]
fn encode_reverse_key_exact_bytes() {
    let value = encode_sort_request(&vec![key("sn", true)]);
    assert_eq!(
        value,
        vec![0x30, 0x09, 0x30, 0x07, 0x04, 0x02, 0x73, 0x6e, 0x81, 0x01, 0xff]
    );
}

#[test]
fn encode_ordering_rule_exact_bytes() {
    let with_rule = SortKey {
        attribute_type: "cn".to_string(),
        ordering_rule: Some("2.5.13.3".to_string()),
        reverse_order: false,
    };
    let value = encode_sort_request(&vec![with_rule]);
    assert_eq!(
        value,
        vec![
            0x30, 0x13, 0x30, 0x11, 0x04, 0x02, 0x63, 0x6e, 0x80, 0x08, 0x32, 0x2e, 0x35, 0x2e,
            0x31, 0x33, 0x2e, 0x33, 0x81, 0x01, 0x00
        ]
    );
}

#[test]
fn encode_decode_round_trip_one_to_five_keys() {
    for n in 1..=5usize {
        let mut keys = Vec::new();
        for i in 0..n {
            keys.push(key(&format!("attr{i}"), i % 2 == 1));
        }
        let encoded = encode_sort_request(&keys);
        let decoded = decode_sort_request(&encoded).unwrap();
        assert_eq!(decoded.len(), n);
        for i in 0..n {
            assert_eq!(decoded[i].attribute_type, keys[i].attribute_type);
            assert_eq!(decoded[i].ordering_rule, keys[i].ordering_rule);
            assert_eq!(decoded[i].reverse_order, keys[i].reverse_order);
        }
    }
}

#[test]
fn round_trip_keeps_ordering_rule() {
    let keys = vec![
        SortKey {
            attribute_type: "givenName".to_string(),
            ordering_rule: Some("caseIgnoreOrderingMatch".to_string()),
            reverse_order: true,
        },
        key("sn", false),
    ];
    let encoded = encode_sort_request(&keys);
    let decoded = decode_sort_request(&encoded).unwrap();
    assert_eq!(decoded.len(), 2);
    assert_eq!(decoded[0].ordering_rule, Some("caseIgnoreOrderingMatch".to_string()));
    assert!(decoded[0].reverse_order);
    assert_eq!(decoded[1].attribute_type, "sn");
}

/// The response fixture of a NoSuchAttribute result naming "unknownAttr".
fn no_such_attribute_fixture() -> Vec<u8> {
    let mut bytes = vec![0x30, 0x10, 0x0a, 0x01, 0x10, 0x80, 0x0b];
    bytes.extend_from_slice(b"unknownAttr");
    bytes
}

#[test]
fn decode_no_such_attribute_with_attribute_name() {
    let response = decode_sort_response(&no_such_attribute_fixture()).unwrap();
    assert_eq!(response.sort_result, SortResult::NoSuchAttribute);
    assert_eq!(response.attribute_type, Some("unknownAttr".to_string()));
}

#[test]
fn decode_success_response() {
    let response = decode_sort_response(&[0x30, 0x03, 0x0a, 0x01, 0x00]).unwrap();
    assert_eq!(response.sort_result, SortResult::Success);
    assert_eq!(response.attribute_type, None);
}

#[test]
fn decode_success_ignores_attribute_field() {
    // An attribute name is physically present, but the client must
    // ignore it on success.
    let bytes = vec![0x30, 0x07, 0x0a, 0x01, 0x00, 0x80, 0x02, 0x63, 0x6e];
    let response = decode_sort_response(&bytes).unwrap();
    assert_eq!(response.sort_result, SortResult::Success);
    assert_eq!(response.attribute_type, None);
}

#[test]
fn decode_error_without_attribute() {
    let response = decode_sort_response(&[0x30, 0x03, 0x0a, 0x01, 0x35]).unwrap();
    assert_eq!(response.sort_result, SortResult::UnwillingToPerform);
    assert_eq!(response.attribute_type, None);
}

#[test]
fn truncated_control_is_malformed() {
    let full = no_such_attribute_fixture();
    for cut in 1..full.len() {
        let truncated = &full[..cut];
        let error = decode_sort_response(truncated).unwrap_err();
        assert!(matches!(error, Error::MalformedControl(_)));
    }
}

#[test]
fn unknown_result_code_is_malformed() {
    let error = decode_sort_response(&[0x30, 0x03, 0x0a, 0x01, 0x02]).unwrap_err();
    assert!(matches!(error, Error::MalformedControl(_)));
}

#[test]
fn non_sequence_payload_is_malformed() {
    let error = decode_sort_response(&[0x04, 0x01, 0x00]).unwrap_err();
    assert!(matches!(error, Error::MalformedControl(_)));
}

#[test]
fn start_builds_critical_control() {
    let adapter = ServerSideSort::new(vec![sort_by("cn", false)]).unwrap();
    let control = adapter.start_control(&vec![]).unwrap();
    assert_eq!(control.oid, SERVER_SIDE_SORT_REQUEST_OID);
    assert!(control.critical);
    assert_eq!(control.value, Some(encode_sort_request(&vec![key("cn", false)])));
}

#[test]
fn start_rejects_preexisting_sort_control() {
    let adapter = ServerSideSort::new(vec![sort_by("cn", false)]).unwrap();
    let existing = vec![Control {
        oid: SERVER_SIDE_SORT_REQUEST_OID.to_string(),
        critical: false,
        value: None,
    }];
    let error = adapter.start_control(&existing).unwrap_err();
    assert!(matches!(error, Error::ControlConflict(_)));
}

#[test]
fn entry_check_passes_on_success_control() {
    let bytes = vec![0x30, 0x03, 0x0a, 0x01, 0x00];
    assert!(ServerSideSort::check_entry_control(Some(&bytes)).is_ok());
}

#[test]
fn entry_check_passes_without_control() {
    assert!(ServerSideSort::check_entry_control(None).is_ok());
}

#[test]
fn entry_check_rejects_non_success_as_internal_fault() {
    let bytes = vec![0x30, 0x03, 0x0a, 0x01, 0x35];
    let error = ServerSideSort::check_entry_control(Some(&bytes)).unwrap_err();
    assert!(matches!(error, Error::SortRejected(_)));
}

#[test]
fn entry_check_flags_malformed_control() {
    let bytes = vec![0x30, 0x03, 0x0a, 0x01];
    let error = ServerSideSort::check_entry_control(Some(&bytes)).unwrap_err();
    assert!(matches!(error, Error::MalformedControl(_)));
}

#[test]
fn validates_controls_from_result_list() {
    let controls = vec![
        Control { oid: "1.2.3.4".to_string(), critical: false, value: None },
        Control {
            oid: SERVER_SIDE_SORT_RESPONSE_OID.to_string(),
            critical: false,
            value: Some(vec![0x30, 0x03, 0x0a, 0x01, 0x00]),
        },
    ];
    assert!(ServerSideSort::validate_entry_controls(&controls).is_ok());

    let bad = vec![Control {
        oid: SERVER_SIDE_SORT_RESPONSE_OID.to_string(),
        critical: false,
        value: Some(vec![0x30, 0x03, 0x0a, 0x01, 0x10]),
    }];
    let error = ServerSideSort::validate_entry_controls(&bad).unwrap_err();
    assert!(matches!(error, Error::SortRejected(_)));
}

#[test]
fn sort_key_from_directive() {
    let key = SortKey::from(sort_by("sn", true));
    assert_eq!(key.attribute_type, "sn");
    assert_eq!(key.ordering_rule, None);
    assert!(key.reverse_order);
}

#[test]
fn decode_request_rejects_garbage() {
    let error = decode_sort_request(&[0x30, 0x02, 0x04, 0x05]).unwrap_err();
    assert!(matches!(error, Error::MalformedControl(_)));
}

#[test]
fn final_controls_are_inspected_for_diagnostics() {
    let controls = vec![Control {
        oid: SERVER_SIDE_SORT_RESPONSE_OID.to_string(),
        critical: false,
        value: Some(no_such_attribute_fixture()),
    }];
    let decoded = ServerSideSort::inspect_final_controls(&controls).unwrap().unwrap();
    assert_eq!(
        decoded,
        ServerSideSortResponse {
            sort_result: SortResult::NoSuchAttribute,
            attribute_type: Some("unknownAttr".to_string()),
        }
    );

    assert!(ServerSideSort::inspect_final_controls(&vec![]).is_none());
}
