use eenv::classify::{
    compute_eenv_state, is_env_file_name, path_is_encrypted, path_is_plaintext,
    path_is_skeleton, split_env_files,
};

#[test]
fn split_partitions_by_suffix() {
    let files = vec![
        b"/r/.env".to_vec(),
        b"/r/.env.example".to_vec(),
        b"/r/.env.enc".to_vec(),
        b"/r/.env.local".to_vec(),
    ];
    let (plain, examples, encs) = split_env_files(&files);
    assert_eq!(plain, vec![b"/r/.env".to_vec(), b"/r/.env.local".to_vec()]);
    assert_eq!(examples, vec![b"/r/.env.example".to_vec()]);
    assert_eq!(encs, vec![b"/r/.env.enc".to_vec()]);
}

#[test]
fn split_sorts_and_dedups() {
    let files = vec![
        b"/r/b/.env".to_vec(),
        b"/r/a/.env".to_vec(),
        b"/r/b/.env".to_vec(),
    ];
    let (plain, examples, encs) = split_env_files(&files);
    assert_eq!(plain, vec![b"/r/a/.env".to_vec(), b"/r/b/.env".to_vec()]);
    assert!(examples.is_empty());
    assert!(encs.is_empty());
}

#[test]
fn every_path_falls_in_exactly_one_category() {
    let paths: Vec<&[u8]> = vec![
        b"/r/.env",
        b"/r/.env.example",
        b"/r/.env.enc",
        b"/r/.env.local.example",
        b"/r/.env.production.enc",
        b"/r/whatever",
    ];
    for p in paths {
        let cats = [path_is_plaintext(p), path_is_skeleton(p), path_is_encrypted(p)];
        let count = cats.iter().filter(|c| **c).count();
        assert_eq!(count, 1, "path {:?} is in {} categories", p, count);
    }
}

#[test]
fn union_of_categories_is_the_input_set() {
    let files = vec![
        b"/r/.env".to_vec(),
        b"/r/.env.example".to_vec(),
        b"/r/.env.enc".to_vec(),
    ];
    let (plain, examples, encs) = split_env_files(&files);
    let mut all: Vec<Vec<u8>> = Vec::new();
    all.extend(plain);
    all.extend(examples);
    all.extend(encs);
    all.sort();
    let mut input = files.clone();
    input.sort();
    input.dedup();
    assert_eq!(all, input);
}

#[test]
fn example_wins_over_enc_suffix() {
    // a name cannot end in both, but the skeleton check runs first
    assert!(path_is_skeleton(b"/r/.env.enc.example"));
    assert!(!path_is_encrypted(b"/r/.env.enc.example"));
}

#[test]
fn env_name_prefix() {
    assert!(is_env_file_name(b".env"));
    assert!(is_env_file_name(b".env.local"));
    assert!(is_env_file_name(b".environment"));
    assert!(!is_env_file_name(b"env"));
    assert!(!is_env_file_name(b".en"));
    assert!(!is_env_file_name(b"config.json"));
}

#[test]
fn state_booleans_follow_the_sets() {
    let plain = vec![b"/r/.env".to_vec()];
    let none: Vec<Vec<u8>> = Vec::new();
    let s = compute_eenv_state(&plain, &none, &none, false);
    assert!(s.env && !s.example && !s.enc && !s.eenvjson);
    let encs = vec![b"/r/.env.enc".to_vec()];
    let s2 = compute_eenv_state(&none, &none, &encs, true);
    assert!(!s2.env && !s2.example && s2.enc && s2.eenvjson);
}
