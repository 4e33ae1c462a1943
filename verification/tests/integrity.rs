use libviprs_storage::storage::archive::seal_at;
use libviprs_storage::storage::integrity::{
    canonical_json, canonical_json_from_text, compute_digests, compute_digests_from_text, digest,
    digest_from_text, document_evidence, verify_text,
};
use libviprs_storage::storage::json::{CanonicalError, RawJson};

fn canonical(text: &str) -> String {
    canonical_json_from_text(text).unwrap()
}

fn refusal(text: &str) -> CanonicalError {
    canonical_json_from_text(text).unwrap_err()
}

#[test]
fn keys_are_sorted_and_arrays_are_not() {
    assert_eq!(canonical("{\"b\": [2, 1], \"a\": {\"d\": 1, \"c\": 2}}"), "{\"a\":{\"c\":2,\"d\":1},\"b\":[2,1]}");
    assert_eq!(canonical("{\"b\":1,\"a\":2}"), canonical("{\"a\":2,\"b\":1}"));
}

#[test]
fn whole_numbers_print_without_a_fraction() {
    assert_eq!(canonical("1.0"), "1");
    assert_eq!(canonical("-0.0"), "0");
    assert_eq!(canonical("1e2"), "100");
    assert_eq!(canonical("1.50"), "1.5");
    assert_eq!(canonical("25e-1"), "2.5");
    assert_eq!(canonical("9007199254740991"), "9007199254740991");
    assert_eq!(canonical("0.000001"), "0.000001");
}

#[test]
fn absent_is_not_null() {
    assert_ne!(canonical("{}"), canonical("{\"a\":null}"));
    assert_eq!(canonical("null"), "null");
}

#[test]
fn strings_escape_what_must_be_escaped() {
    assert_eq!(
        canonical("\"a\\u0022\\\\/\\b\\t\\n\\f\\r\\u0001\\u00e9\""),
        "\"a\\\"\\\\/\\b\\t\\n\\f\\r\\u0001\u{e9}\""
    );
    assert_eq!(canonical("\"\\ud83d\\ude00\""), "\"\u{1F600}\"");
}

#[test]
fn numbers_that_two_languages_print_differently_are_refused() {
    assert!(matches!(refusal("{\"a\":1e21}"), CanonicalError::OutOfPlainRange { path, token } if path == "$.a" && token == "1e21"));
    assert!(matches!(refusal("[1e-7]"), CanonicalError::OutOfPlainRange { path, .. } if path == "$[0]"));
    assert!(matches!(refusal("9007199254740993"), CanonicalError::UnsafeInteger { path, value } if path == "$" && value == "9007199254740993"));
}

#[test]
fn ambiguous_keys_are_refused() {
    assert!(matches!(refusal("{\"a\":1,\"a\":2}"), CanonicalError::DuplicateKey { key, .. } if key == "a"));
    let e = refusal("{\"\u{e9}\":1}");
    assert!(matches!(&e, CanonicalError::NonAsciiKey { key, .. } if key == "\u{e9}"));
    assert_eq!(
        e.message(),
        "$ has the non-ASCII key \"\u{e9}\"; JavaScript sorts keys by UTF-16 code unit and Rust by UTF-8 byte, and those two orders only agree on ASCII"
    );
}

#[test]
fn what_is_not_json_is_malformed() {
    for text in ["", "{", "[1,]", "01", "nul", "\"a", "{\"a\" 1}", "1 2", "\"\\x\"", "\"\\ud800\""] {
        assert!(matches!(refusal(text), CanonicalError::Malformed { .. }), "{text:?}");
    }
}

#[test]
fn the_digest_is_sha256_over_the_canonical_text() {
    let want = "sha256:1cc69c7fa23616ca2ec3ee70d24390a6225c8832db8a4c814c7e0e7f942f8668";
    assert_eq!(digest_from_text("{\"b\": [true, null], \"a\": 1.0}").unwrap(), want);
    let value: serde_json::Value = serde_json::from_str("{\"b\":[true,null],\"a\":1.0}").unwrap();
    assert_eq!(canonical_json(&value).unwrap(), "{\"a\":1,\"b\":[true,null]}");
    assert_eq!(digest(&value).unwrap(), want);
}

const DOC: &str = "{\"cells\":[{\"samples\":[1.5,2.5]}],\"provenance\":{\"os\":\"linux\"},\"measurement\":{\"reps\":7},\"family\":\"x\"}";

#[test]
fn sealing_does_not_change_what_was_sealed() {
    let doc = RawJson::parse(DOC).unwrap();
    let before = compute_digests_from_text(DOC).unwrap();
    let (sealed, digests) = seal_at(&doc, "2026-01-01T00:00:00.000Z").unwrap();
    assert_eq!(digests.document, before.document);
    let text = sealed.to_pretty();
    let after = compute_digests_from_text(&text).unwrap();
    assert_eq!(after.document, before.document);
    assert_eq!(after.cells, before.cells);
    assert!(document_evidence(&sealed).get("integrity").is_none());
    let report = verify_text(&text).unwrap();
    assert!(report.ok());
    assert_eq!(
        report.lines(),
        vec![format!("verified: all four digests still hold (document {})", before.document)]
    );
    let (again, twice) = seal_at(&sealed, "2027-01-01T00:00:00.000Z").unwrap();
    assert_eq!(twice.document, before.document);
    assert!(verify_text(&again.to_pretty()).unwrap().ok());
    let value: serde_json::Value = serde_json::from_str(DOC).unwrap();
    assert_eq!(compute_digests(&value).unwrap().document, before.document);
}

#[test]
fn an_edited_sample_moves_cells_and_document_alone() {
    let doc = RawJson::parse(DOC).unwrap();
    let (sealed, _) = seal_at(&doc, "2026-01-01T00:00:00.000Z").unwrap();
    let edited = sealed.to_pretty().replace("2.5", "2.25");
    let report = verify_text(&edited).unwrap();
    assert!(!report.ok());
    assert_eq!(report.moved, vec!["cells", "document"]);
    assert_eq!(report.unchanged, vec!["runners", "measurements"]);
    assert_eq!(report.lines().len(), 2);
    assert!(report.lines()[0].starts_with("REFUSED: the cells block moved. The document says sha256:"));
}

#[test]
fn a_document_without_a_seal_has_nothing_to_verify_against() {
    let report = verify_text(DOC).unwrap();
    assert!(!report.ok());
    assert_eq!(
        report.lines(),
        vec!["REFUSED: the document carries no integrity block, so there is nothing to verify it against."]
    );
    let odd = verify_text("{\"integrity\":{\"cells\":1}}").unwrap();
    assert!(odd.malformed_integrity);
    assert!(odd.lines()[0].starts_with("REFUSED: the document carries an integrity block that is not four digests"));
}

#[test]
fn a_printed_document_reads_back() {
    let doc = RawJson::parse("{\"a\":[1.50,{\"b\":\"\\n\"}],\"c\":{},\"d\":[]}").unwrap();
    let text = doc.to_pretty();
    assert_eq!(text, "{\n  \"a\": [\n    1.50,\n    {\n      \"b\": \"\\n\"\n    }\n  ],\n  \"c\": {},\n  \"d\": []\n}\n");
    assert_eq!(RawJson::parse(&text).unwrap(), doc);
    assert_eq!(RawJson::parse(&text).unwrap().to_pretty(), text);
}

#[test]
fn an_object_keeps_its_file_order() {
    let mut doc = RawJson::parse("{\"a\":1,\"b\":2}").unwrap();
    doc.insert("a", RawJson::Str("x".to_string()));
    doc.insert("c", RawJson::Null);
    assert_eq!(doc.get("a").and_then(|v| v.as_str()), Some("x"));
    doc.remove("b");
    assert_eq!(doc.to_pretty(), "{\n  \"a\": \"x\",\n  \"c\": null\n}\n");
    assert!(doc.get("b").is_none());
}

#[test]
fn a_malformed_text_says_where() {
    let detail = |text: &str| match RawJson::parse(text) {
        Err(CanonicalError::Malformed { detail }) => detail,
        other => panic!("{other:?}"),
    };
    assert_eq!(detail("?"), "unexpected byte '?' at byte 0");
    assert_eq!(detail("nul"), "expected \"null\" at byte 0");
    assert_eq!(detail("[1,]"), "unexpected byte ']' at byte 3");
    assert_eq!(detail("1 2"), "trailing input at byte 2");
    assert_eq!(detail("01"), "a number with a leading zero at byte 2");
    assert_eq!(detail("\"\\x\""), "unknown escape \\x at byte 3");
    let deep = "[".repeat(200);
    assert!(detail(&deep).starts_with("nested deeper than 128"));
}

#[test]
fn a_zero_is_a_zero_whatever_its_exponent() {
    for text in ["0e500", "-0.0e999", "0E-400", "0.000e99999999999999999999", "0e-99999999999999999999"] {
        assert_eq!(canonical(text), "0", "{text}");
    }
    assert_eq!(canonical("1e00001"), "10");
    assert_eq!(canonical("1e0000000000000000000000000000000001"), "10");
    assert_eq!(canonical("100e-0000000000000000000000000000000002"), "1");
    for text in ["1e500", "1e-500", "1e99999999999999999999", "1e-99999999999999999999", "1000000000000000000000.0"] {
        assert!(matches!(refusal(text), CanonicalError::OutOfPlainRange { token, .. } if token == text), "{text}");
    }
    let zeros = "0".repeat(40);
    assert_eq!(canonical(&format!("0.{zeros}1e41")), "1");
    assert_eq!(canonical(&format!("1{zeros}e-40")), "1");
}

#[test]
fn an_escape_has_four_hexadecimal_digits() {
    for text in ["\"\\u+041\"", "\"\\u 041\"", "\"\\u-041\"", "\"\\u004\"", "\"\\u00g1\""] {
        assert!(matches!(refusal(text), CanonicalError::Malformed { .. }), "{text}");
    }
    assert_eq!(canonical("\"\\u0041\\u00e9\""), "\"A\u{e9}\"");
    assert_eq!(canonical("\"\\uD83D\\uDE00\""), "\"\u{1f600}\"");
}

#[test]
fn a_digest_has_one_form() {
    for text in ["null", DOC] {
        let got = digest_from_text(text).unwrap();
        assert!(got.starts_with("sha256:"));
        assert_eq!(got.len(), 71);
        assert!(got[7..].chars().all(|c| c.is_ascii_digit() || ('a'..='f').contains(&c)));
    }
}

#[test]
fn file_order_does_not_show_at_any_depth() {
    let one = canonical("{\"a\":[{\"x\":1,\"y\":{\"p\":[],\"q\":null}}],\"b\":2}");
    let two = canonical("{\"b\":2.0,\"a\":[{\"y\":{\"q\":null,\"p\":[]},\"x\":1}]}");
    assert_eq!(one, two);
    assert_eq!(one, "{\"a\":[{\"x\":1,\"y\":{\"p\":[],\"q\":null}}],\"b\":2}");
    assert_ne!(one, canonical("{\"a\":[{\"x\":1,\"y\":{\"p\":[],\"q\":0}}],\"b\":2}"));
    let deep = refusal("{\"a\":[{\"x\":{\"k\":1,\"k\":1}}]}");
    assert!(matches!(deep, CanonicalError::DuplicateKey { path, key } if path == "$.a[0].x" && key == "k"));
}

#[test]
fn a_canonical_text_is_its_own() {
    for text in [DOC, "[1e3, 25e-1, -0.0, 0.000001]", "\"a\\u0001\\n\"", "{\"z\":{},\"a\":[[]]}"] {
        let once = canonical(text);
        assert_eq!(canonical(&once), once, "{text}");
    }
    assert_eq!(canonical("1e20"), "100000000000000000000");
    assert!(matches!(refusal("100000000000000000000"), CanonicalError::UnsafeInteger { .. }));
}

#[test]
fn an_edited_number_names_the_block_it_stands_in() {
    let text = "{\"cells\":[1],\"runners\":[{\"n\":2}],\"measurement\":{\"reps\":7}}";
    let (sealed, _) = seal_at(&RawJson::parse(text).unwrap(), "2026-01-01T00:00:00.000Z").unwrap();
    let edited = |key: &str, value: &str| {
        let mut doc = sealed.clone();
        doc.insert(key, RawJson::parse(value).unwrap());
        verify_text(&doc.to_pretty()).unwrap()
    };
    let report = edited("runners", "[{\"n\":-2}]");
    assert_eq!(report.moved, vec!["runners", "document"]);
    assert_eq!(report.unchanged, vec!["cells", "measurements"]);
    let report = edited("measurement", "{\"reps\":7.5}");
    assert_eq!(report.moved, vec!["measurements", "document"]);
    assert_eq!(report.unchanged, vec!["cells", "runners"]);
    assert!(edited("measurement", "{\"reps\":70e-1}").ok());
}

#[test]
fn an_edited_environment_moves_the_document_alone() {
    let (sealed, _) = seal_at(&RawJson::parse(DOC).unwrap(), "2026-01-01T00:00:00.000Z").unwrap();
    let mut edited = sealed.clone();
    edited.insert("provenance", RawJson::parse("{\"os\":\"macos\"}").unwrap());
    let report = verify_text(&edited.to_pretty()).unwrap();
    assert_eq!(report.moved, vec!["document"]);
    assert_eq!(report.unchanged, vec!["cells", "runners", "measurements"]);
}

#[test]
fn a_token_put_together_by_hand_may_have_two_signs() {
    let spelled = |token: &str| RawJson::Number(token.to_string()).canonical();
    assert_eq!(spelled("1e+-5").unwrap(), "0.00001");
    assert_eq!(spelled("1e-+5").unwrap(), "0.00001");
    assert_eq!(spelled("1e--5").unwrap(), "100000");
    assert_eq!(spelled("1e++5").unwrap(), "100000");
    for token in ["1e---5", "1e+", "1e+-", "1ex", "1e5x"] {
        assert!(matches!(spelled(token), Err(CanonicalError::OutOfPlainRange { .. })), "{token}");
    }
    assert!(RawJson::parse("1e+-5").is_err());
}
