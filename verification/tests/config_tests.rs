use eenv::config::{
    ensure_config_plan, is_json_clean_key, min_config_text, read_eenv_key, validate_eenv_config,
    write_eenv_config_with_key, ConfigPlan, KeyReadError,
};
use eenv::crypto::derive_key;
use eenv::paths::backup_path_with_ts;

#[test]
fn validate_accepts_object_with_nonempty_key() {
    assert!(validate_eenv_config(b"{\"key\": \"abc\"}"));
    assert!(validate_eenv_config(b"{\"key\": \"abc\", \"other\": 1}"));
}

#[test]
fn validate_rejects_bad_shapes() {
    assert!(!validate_eenv_config(b""));
    assert!(!validate_eenv_config(b"{bad"));
    assert!(!validate_eenv_config(b"[1, 2]"));
    assert!(!validate_eenv_config(b"\"just a string\""));
    assert!(!validate_eenv_config(b"{}"));
    assert!(!validate_eenv_config(b"{\"key\": \"\"}"));
    assert!(!validate_eenv_config(b"{\"key\": 42}"));
}

#[test]
fn plan_creates_when_absent() {
    let fresh = b"FRESHKEY01".to_vec();
    let plan = ensure_config_plan(None, &fresh);
    match plan {
        ConfigPlan::CreateNew { text } => {
            assert_eq!(text, b"{\n  \"key\": \"FRESHKEY01\"\n}\n".to_vec());
            assert!(validate_eenv_config(&text));
        }
        other => panic!("unexpected plan: {:?}", other),
    }
}

#[test]
fn plan_keeps_valid_config() {
    let existing = b"{\"key\": \"abc\"}".to_vec();
    let fresh = b"FRESHKEY01".to_vec();
    assert!(matches!(ensure_config_plan(Some(&existing), &fresh), ConfigPlan::Keep));
}

#[test]
fn scenario_missing_key_injected_preserving_fields() {
    // config holds `{"other":1}`: the repair injects a key and keeps
    // `other`
    let existing = b"{\"other\":1}".to_vec();
    let fresh = b"FRESHKEY01".to_vec();
    let plan = ensure_config_plan(Some(&existing), &fresh);
    match plan {
        ConfigPlan::InjectKey { text } => {
            let v: serde_json::Value = serde_json::from_slice(&text).unwrap();
            assert_eq!(v.get("other").and_then(|x| x.as_i64()), Some(1));
            let key = v.get("key").and_then(|x| x.as_str()).unwrap();
            assert_eq!(key, "FRESHKEY01");
            assert!(!key.is_empty());
        }
        other => panic!("unexpected plan: {:?}", other),
    }
}

#[test]
fn empty_key_is_also_repaired() {
    let existing = b"{\"key\": \"\", \"other\": true}".to_vec();
    let fresh = b"FRESHKEY01".to_vec();
    let plan = ensure_config_plan(Some(&existing), &fresh);
    match plan {
        ConfigPlan::InjectKey { text } => {
            let v: serde_json::Value = serde_json::from_slice(&text).unwrap();
            assert_eq!(v.get("key").and_then(|x| x.as_str()), Some("FRESHKEY01"));
            assert_eq!(v.get("other").and_then(|x| x.as_bool()), Some(true));
        }
        other => panic!("unexpected plan: {:?}", other),
    }
}

#[test]
fn scenario_invalid_json_needs_operator_key() {
    // config holds `{bad`: the repair asks the operator for a key; the
    // caller then backs the old content up under a timestamped path and
    // writes the minimal config with the supplied key
    let existing = b"{bad".to_vec();
    let fresh = b"FRESHKEY01".to_vec();
    let plan = ensure_config_plan(Some(&existing), &fresh);
    assert!(matches!(plan, ConfigPlan::NeedsOperatorKey));
    let (path, text) = write_eenv_config_with_key(b"/repo", b"operator-key");
    assert_eq!(path, b"/repo/eenv.config.json".to_vec());
    assert_eq!(text, b"{\n  \"key\": \"operator-key\"\n}\n".to_vec());
    // the rewritten config validates: ensure converges to a valid state
    assert!(validate_eenv_config(&text));
    let backup = backup_path_with_ts(&path, 1700000000);
    assert_eq!(backup, b"/repo/eenv.config.bak.1700000000".to_vec());
}

#[test]
fn non_object_json_is_rewritten() {
    let existing = b"[1,2,3]".to_vec();
    let fresh = b"FRESHKEY01".to_vec();
    let plan = ensure_config_plan(Some(&existing), &fresh);
    match plan {
        ConfigPlan::RewriteGenerated { text } => {
            assert_eq!(text, min_config_text(b"FRESHKEY01"));
        }
        other => panic!("unexpected plan: {:?}", other),
    }
}

#[test]
fn read_key_derives_from_trimmed_string() {
    let text = b"{\"key\": \"  my key  \"}".to_vec();
    let got = read_eenv_key(&text).unwrap();
    let expect = derive_key(b"my key").unwrap();
    assert_eq!(got, expect);
    assert_eq!(got.len(), 32);
}

#[test]
fn read_key_error_variants() {
    assert!(matches!(read_eenv_key(b"{bad"), Err(KeyReadError::BadJson)));
    assert!(matches!(read_eenv_key(b"{}"), Err(KeyReadError::MissingKey)));
    assert!(matches!(read_eenv_key(b"{\"key\": 3}"), Err(KeyReadError::MissingKey)));
    assert!(matches!(read_eenv_key(b"[1]"), Err(KeyReadError::MissingKey)));
    assert!(matches!(read_eenv_key(b"{\"key\": \"  \"}"), Err(KeyReadError::EmptyKey)));
}

#[test]
fn minimal_config_validates() {
    let text = min_config_text(b"SOMEKEY");
    assert!(validate_eenv_config(&text));
}

#[test]
fn clean_key_check_guards_the_json_splice() {
    assert!(is_json_clean_key(b"FRESHKEY01"));
    assert!(is_json_clean_key(b"operator-key with spaces!"));
    // quotes, backslashes, control bytes and non-ASCII bytes all make
    // the spliced document untrustworthy and are rejected
    assert!(!is_json_clean_key(b"a\"b"));
    assert!(!is_json_clean_key(b"a\\b"));
    assert!(!is_json_clean_key(b"a\tb"));
    assert!(!is_json_clean_key(&[97u8, 0xFF, 98u8]));
}
