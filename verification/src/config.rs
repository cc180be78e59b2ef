//! The key-holding config file: a JSON object with one required member
//! `key`, a non-empty string.  Validation, repair planning and key
//! reading are verified; the JSON work itself is serde_json's, behind a
//! trusted surface that models a document by its top-level object shape.

use vstd::prelude::*;

use crate::bytes::trim;
use crate::crypto::blake3_of;

verus! {

/// Declares serde_json::Value so that it can stand in signatures; the
/// value itself stays opaque and is read only through the trusted
/// functions below.
#[verifier::external_type_specification]
#[verifier::external_body]
pub struct ExValue(serde_json::Value);

/// The top-level model of a JSON value: nothing for a non-object;
/// for an object, a map from member names (UTF-8 bytes) to the member's
/// string content when it is a string, or nothing when it is not.
pub uninterp spec fn json_model(v: serde_json::Value) -> Option<
    Map<Seq<u8>, Option<Seq<u8>>>,
>;

/// The model of a JSON document: nothing when the bytes do not parse;
/// otherwise the model of the parsed value.
pub uninterp spec fn json_doc(s: Seq<u8>) -> Option<Option<Map<Seq<u8>, Option<Seq<u8>>>>>;

/// Every byte is ASCII.
pub open spec fn is_ascii_seq(s: Seq<u8>) -> bool {
    forall|i: int| 0 <= i < s.len() ==> s[i] < 128
}

/// Relies on serde_json::from_slice: parse success and the top-level
/// shape of the parsed value depend on the input bytes alone.
#[verifier::external_body]
fn parse_json(text: &[u8]) -> (r: Option<serde_json::Value>)
    ensures
        (r is Some) == (json_doc(text@) is Some),
        r matches Some(v) ==> Option::Some(json_model(v)) == json_doc(text@),
{
    serde_json::from_slice::<serde_json::Value>(text).ok()
}

/// Relies on serde_json::Value::is_object.
#[verifier::external_body]
fn json_is_object(v: &serde_json::Value) -> (r: bool)
    ensures
        r == (json_model(*v) is Some),
{
    v.is_object()
}

/// Relies on serde_json::Value::get and the Value::String variant: the
/// named member's text, when the value is an object holding it as a
/// string.
#[verifier::external_body]
fn json_get_str(v: &serde_json::Value, name: &[u8]) -> (r: Option<Vec<u8>>)
    requires
        is_ascii_seq(name@),
    ensures
        (r is Some) <==> (json_model(*v) matches Some(m) && m.dom().contains(name@)
            && m[name@] is Some),
        r matches Some(s) ==> json_model(*v).unwrap()[name@] == Option::Some(s@),
{
    match v.get(String::from_utf8_lossy(name).as_ref()) {
        Some(serde_json::Value::String(s)) => Some(s.as_bytes().to_vec()),
        _ => None,
    }
}

/// Relies on serde_json::Value::as_object_mut and Map::insert: sets the
/// named member to a string, keeping every other member.
#[verifier::external_body]
fn json_insert_str(v: &mut serde_json::Value, name: &[u8], val: &[u8])
    requires
        json_model(*old(v)) is Some,
        is_ascii_seq(name@),
        is_ascii_seq(val@),
    ensures
        json_model(*final(v)) == Option::Some(
            json_model(*old(v)).unwrap().insert(name@, Option::Some(val@)),
        ),
{
    v.as_object_mut().unwrap().insert(
        String::from_utf8_lossy(name).into_owned(),
        serde_json::Value::String(String::from_utf8_lossy(val).into_owned()),
    );
}

/// Relies on serde_json::to_string_pretty: serializing a Value cannot
/// fail (its maps have string keys and its numbers are finite), the
/// rendered text parses back to a value of the same top-level shape,
/// and serde_json ignores a trailing newline when parsing.
#[verifier::external_body]
fn json_to_string_pretty(v: &serde_json::Value) -> (r: Vec<u8>)
    ensures
        json_doc(r@) == Option::Some(json_model(*v)),
        json_doc(r@ + seq![10u8]) == Option::Some(json_model(*v)),
{
    serde_json::to_string_pretty(v).expect("serializing a Value cannot fail").into_bytes()
}

/// The required member's name: `key` in ASCII bytes.
pub open spec fn key_name() -> Seq<u8> {
    seq![107u8, 101u8, 121u8]
}

/// The member name as a vector.
pub fn key_name_bytes() -> (r: Vec<u8>)
    ensures
        r@ == key_name(),
        is_ascii_seq(r@),
{
    let mut r: Vec<u8> = Vec::new();
    r.push(107);
    r.push(101);
    r.push(121);
    assert(r@ =~= key_name());
    r
}

/// A key string that is safe inside a JSON string literal as it
/// stands: printable ASCII, with no double quote and no backslash.
/// Keeping to ASCII also keeps the document valid UTF-8, which the
/// parser demands of string content.
pub open spec fn spec_json_clean_key(k: Seq<u8>) -> bool {
    forall|i: int| 0 <= i < k.len() ==> k[i] != 34 && k[i] != 92 && 32 <= k[i] && k[i] < 128
}

/// Whether a key is safe inside a JSON string literal as it stands.
pub fn is_json_clean_key(k: &[u8]) -> (r: bool)
    ensures
        r == spec_json_clean_key(k@),
{
    let n = k.len();
    let mut i: usize = 0;
    while i < n
        invariant
            n == k@.len(),
            0 <= i <= n,
            forall|j: int| 0 <= j < i ==> k@[j] != 34 && k@[j] != 92 && 32 <= k@[j] && k@[j] < 128,
        decreases n - i,
    {
        if k[i] == 34 || k[i] == 92 || k[i] < 32 || k[i] >= 128 {
            return false;
        }
        i += 1;
    }
    true
}

/// Relies on serde_json::from_slice and the JSON string grammar: the
/// minimal config document around a clean key — printable ASCII, so in
/// particular valid UTF-8, with quote and backslash excluded — parses
/// as an object whose sole member `key` is exactly that string.  This
/// stands beside `parse_json` because it carries a fact of the grammar
/// that no clause over an arbitrary document can.
#[verifier::external_body]
fn parse_min_config(text: &[u8], key: &[u8]) -> (r: Option<serde_json::Value>)
    requires
        text@ == spec_min_config(key@),
        spec_json_clean_key(key@),
    ensures
        r is Some,
        r matches Some(v) ==> Option::Some(json_model(v)) == json_doc(text@) && json_model(v)
            == Option::Some(Map::empty().insert(key_name(), Option::Some(key@))),
{
    serde_json::from_slice::<serde_json::Value>(text).ok()
}

/// The key string a config document holds, when it parses as an object
/// with a string member `key`.
pub open spec fn spec_config_key(s: Seq<u8>) -> Option<Seq<u8>> {
    match json_doc(s) {
        Option::Some(doc) => match doc {
            Option::Some(m) => if m.dom().contains(key_name()) && m[key_name()] is Some {
                m[key_name()]
            } else {
                Option::None
            },
            Option::None => Option::None,
        },
        Option::None => Option::None,
    }
}

/// A config document is valid: it parses as a JSON object whose member
/// `key` is a non-empty string.
pub open spec fn spec_config_valid(s: Seq<u8>) -> bool {
    spec_config_key(s) matches Option::Some(k) && k.len() > 0
}

/// Validate config text without changing anything.
pub fn validate_eenv_config(text: &[u8]) -> (r: bool)
    ensures
        r == spec_config_valid(text@),
{
    match parse_json(text) {
        Option::Some(v) => {
            let name = key_name_bytes();
            match json_get_str(&v, name.as_slice()) {
                Option::Some(s) => s.len() > 0,
                Option::None => false,
            }
        },
        Option::None => false,
    }
}

/// The minimal config document around a key string:
/// `{\n  "key": "<key>"\n}\n`.
pub open spec fn spec_min_config(k: Seq<u8>) -> Seq<u8> {
    seq![123u8, 10u8, 32u8, 32u8, 34u8, 107u8, 101u8, 121u8, 34u8, 58u8, 32u8, 34u8] + k
        + seq![34u8, 10u8, 125u8, 10u8]
}

/// Build the minimal config document for a key.  For a clean key the
/// document parses back as an object whose `key` member is that string,
/// so a non-empty clean key yields a valid config.
pub fn min_config_text(key: &[u8]) -> (r: Vec<u8>)
    ensures
        r@ == spec_min_config(key@),
        spec_json_clean_key(key@) ==> json_doc(r@) == Option::Some(
            Option::Some(Map::empty().insert(key_name(), Option::Some(key@))),
        ),
        spec_json_clean_key(key@) && key@.len() > 0 ==> spec_config_valid(r@),
{
    let mut r: Vec<u8> = Vec::new();
    r.push(123);
    r.push(10);
    r.push(32);
    r.push(32);
    r.push(34);
    r.push(107);
    r.push(101);
    r.push(121);
    r.push(34);
    r.push(58);
    r.push(32);
    r.push(34);
    let mut k = vstd::slice::slice_to_vec(key);
    r.append(&mut k);
    r.push(34);
    r.push(10);
    r.push(125);
    r.push(10);
    assert(r@ =~= spec_min_config(key@));
    if is_json_clean_key(key) {
        // parse the freshly built document back: this materializes the
        // grammar fact the contract states
        let _ = parse_min_config(r.as_slice(), key);
    }
    r
}

/// The write that replaces the config with exactly the minimal document
/// around a key: where the file lives under the root, and its full new
/// content.  The caller persists the pair atomically.
pub fn write_eenv_config_with_key(repo_root: &[u8], key_str: &[u8]) -> (r: (Vec<u8>, Vec<u8>))
    ensures
        r.0@ == crate::paths::spec_join(repo_root@, crate::paths::config_name()),
        r.1@ == spec_min_config(key_str@),
        spec_json_clean_key(key_str@) && key_str@.len() > 0 ==> spec_config_valid(r.1@),
{
    let path = crate::paths::eenv_config_path(repo_root);
    let text = min_config_text(key_str);
    (path, text)
}

/// What `ensure` reports of the config file.
#[derive(Debug, PartialEq, Eq)]
pub enum ConfigStatus {
    /// The file was absent and has been created.
    Created,
    /// The file was already valid and is untouched.
    Valid,
    /// The file was an object without a usable key; one was injected.
    FixedMissingKey,
    /// The file was not usable JSON; it was backed up and rewritten.
    RewrittenFromInvalid {
        /// Where the original content was saved.
        backup: Vec<u8>,
    },
}

/// The repair a config file needs, decided from its content alone.  The
/// caller performs the writes (and, for `NeedsOperatorKey`, asks the
/// operator for a key first, then writes the minimal config with it and
/// a timestamped backup of the old content).
#[derive(Debug)]
pub enum ConfigPlan {
    /// No file: create the minimal config with the fresh key.
    CreateNew {
        /// The full text to write.
        text: Vec<u8>,
    },
    /// The file is valid: leave it alone.
    Keep,
    /// An object without a usable key: rewrite with the key injected,
    /// every other member preserved.
    InjectKey {
        /// The full text to write.
        text: Vec<u8>,
    },
    /// Parses, but not as an object: back up, then write the minimal
    /// config with the fresh key.
    RewriteGenerated {
        /// The full text to write.
        text: Vec<u8>,
    },
    /// Does not parse at all: back up, ask the operator for a key, and
    /// write the minimal config with it.
    NeedsOperatorKey,
}

/// Decide how to repair the config file.  `existing` is the file's
/// content, or nothing when the file is absent; `fresh_key` is a
/// generated key to use where one must be invented.
pub fn ensure_config_plan(existing: Option<&Vec<u8>>, fresh_key: &Vec<u8>) -> (r: ConfigPlan)
    requires
        is_ascii_seq(fresh_key@),
        spec_json_clean_key(fresh_key@),
        fresh_key@.len() > 0,
    ensures
        existing is None ==> (r matches ConfigPlan::CreateNew { text } && text@ == spec_min_config(
            fresh_key@,
        ) && spec_config_valid(text@)),
        existing matches Some(t) && json_doc(t@) is None ==> r is NeedsOperatorKey,
        existing matches Some(t) && json_doc(t@) == Option::Some(
            Option::None::<Map<Seq<u8>, Option<Seq<u8>>>>,
        ) ==> (r matches ConfigPlan::RewriteGenerated { text } && text@ == spec_min_config(
            fresh_key@,
        ) && spec_config_valid(text@)),
        existing matches Some(t) && json_doc(t@) is Some && json_doc(t@).unwrap() is Some
            && spec_config_valid(t@) ==> r is Keep,
        existing matches Some(t) ==> (json_doc(t@) is Some && json_doc(t@).unwrap() is Some
            && !spec_config_valid(t@) ==> (r matches ConfigPlan::InjectKey { text } && json_doc(
            text@,
        ) == Option::Some(
            Option::Some(
                json_doc(t@).unwrap().unwrap().insert(key_name(), Option::Some(fresh_key@)),
            ),
        ) && spec_config_valid(text@))),
{
    match existing {
        Option::None => ConfigPlan::CreateNew { text: min_config_text(fresh_key.as_slice()) },
        Option::Some(t) => {
            match parse_json(t.as_slice()) {
                Option::None => ConfigPlan::NeedsOperatorKey,
                Option::Some(v) => {
                    if !json_is_object(&v) {
                        ConfigPlan::RewriteGenerated {
                            text: min_config_text(fresh_key.as_slice()),
                        }
                    } else {
                        let name = key_name_bytes();
                        let needs_key = match json_get_str(&v, name.as_slice()) {
                            Option::Some(s) => s.len() == 0,
                            Option::None => true,
                        };
                        if !needs_key {
                            ConfigPlan::Keep
                        } else {
                            let mut v2 = v;
                            json_insert_str(&mut v2, name.as_slice(), fresh_key.as_slice());
                            let mut text = json_to_string_pretty(&v2);
                            if text.len() == 0 || text[text.len() - 1] != 10 {
                                let ghost t0 = text@;
                                text.push(10);
                                assert(text@ =~= t0 + seq![10u8]);
                            }
                            ConfigPlan::InjectKey { text }
                        }
                    }
                },
            }
        },
    }
}

/// Why a key cannot be read from the config file.
#[derive(Clone, Copy, Debug, PartialEq, Eq, Structural)]
pub enum KeyReadError {
    /// The file is not valid JSON.
    BadJson,
    /// No string member `key` exists.
    MissingKey,
    /// The key string trims to nothing.
    EmptyKey,
}

/// Read the project key from config text and derive the 256-bit
/// symmetric key from it: the BLAKE3 digest of the trimmed key string.
pub fn read_eenv_key(text: &[u8]) -> (r: Result<Vec<u8>, KeyReadError>)
    ensures
        (r is Ok) == (spec_config_key(text@) matches Option::Some(k) && trim(k).len() > 0),
        r matches Ok(d) ==> d@ == blake3_of(trim(spec_config_key(text@).unwrap())) && d@.len()
            == 32,
        r matches Err(e) ==> ((e == KeyReadError::BadJson) <==> json_doc(text@) is None) && ((e
            == KeyReadError::MissingKey) <==> (json_doc(text@) is Some && spec_config_key(
            text@,
        ) is None)) && ((e == KeyReadError::EmptyKey) <==> (spec_config_key(text@) matches
            Option::Some(k) && trim(k).len() == 0)),
{
    match parse_json(text) {
        Option::None => Result::Err(KeyReadError::BadJson),
        Option::Some(v) => {
            let name = key_name_bytes();
            match json_get_str(&v, name.as_slice()) {
                Option::None => Result::Err(KeyReadError::MissingKey),
                Option::Some(k) => {
                    let kt = crate::bytes::trim_of(k.as_slice());
                    if kt.len() == 0 {
                        Result::Err(KeyReadError::EmptyKey)
                    } else {
                        match crate::crypto::derive_key(kt.as_slice()) {
                            Result::Ok(d) => Result::Ok(d),
                            Result::Err(_) => {
                                // unreachable: the trimmed key is non-empty
                                // and trimming is idempotent
                                proof {
                                    crate::bytes::lemma_trim_props(k@, 0);
                                }
                                assert(false);
                                Result::Err(KeyReadError::EmptyKey)
                            },
                        }
                    }
                },
            }
        },
    }
}

} // verus!
