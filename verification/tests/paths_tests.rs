use eenv::paths::{
    backup_path_with_ts, dec_output_path, eenv_config_path, enc_output_path, example_path_for,
    file_name_of, join_path,
};

#[test]
fn enc_path_appends_suffix() {
    assert_eq!(enc_output_path(b"/r/.env"), b"/r/.env.enc".to_vec());
    assert_eq!(enc_output_path(b"/r/.env.local"), b"/r/.env.local.enc".to_vec());
}

#[test]
fn dec_path_strips_suffix() {
    assert_eq!(dec_output_path(b"/r/.env.enc"), b"/r/.env".to_vec());
    assert_eq!(dec_output_path(b"/r/.env.local.enc"), b"/r/.env.local".to_vec());
    // fallback: no suffix, path unchanged
    assert_eq!(dec_output_path(b"/r/.env"), b"/r/.env".to_vec());
}

#[test]
fn enc_then_dec_is_identity() {
    let p = b"/r/sub/.env.staging".to_vec();
    assert_eq!(dec_output_path(&enc_output_path(&p)), p);
}

#[test]
fn example_path_appends_or_keeps() {
    assert_eq!(example_path_for(b"/r/.env"), b"/r/.env.example".to_vec());
    assert_eq!(example_path_for(b"/r/.env.example"), b"/r/.env.example".to_vec());
}

#[test]
fn config_path_under_root() {
    assert_eq!(eenv_config_path(b"/repo"), b"/repo/eenv.config.json".to_vec());
    assert_eq!(eenv_config_path(b"/repo/"), b"/repo/eenv.config.json".to_vec());
    assert_eq!(eenv_config_path(b""), b"eenv.config.json".to_vec());
}

#[test]
fn join_inserts_single_separator() {
    assert_eq!(join_path(b"/a", b"b"), b"/a/b".to_vec());
    assert_eq!(join_path(b"/a/", b"b"), b"/a/b".to_vec());
    assert_eq!(join_path(b"", b"b"), b"b".to_vec());
}

#[test]
fn file_name_is_after_last_separator() {
    assert_eq!(file_name_of(b"/a/b/.env"), b".env".to_vec());
    assert_eq!(file_name_of(b".env"), b".env".to_vec());
    assert_eq!(file_name_of(b"/a/b/"), b"".to_vec());
}

#[test]
fn backup_path_replaces_extension_with_timestamp() {
    assert_eq!(
        backup_path_with_ts(b"/r/eenv.config.json", 1234),
        b"/r/eenv.config.bak.1234".to_vec()
    );
    // a name without an extension gains one
    assert_eq!(backup_path_with_ts(b"/r/noext", 5), b"/r/noext.bak.5".to_vec());
    // only the file name's dots count, not the directory's
    assert_eq!(backup_path_with_ts(b"/r.d/noext", 5), b"/r.d/noext.bak.5".to_vec());
    // a leading dot does not open an extension
    assert_eq!(backup_path_with_ts(b"/r/.env", 77), b"/r/.env.bak.77".to_vec());
}
