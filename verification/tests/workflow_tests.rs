use eenv::classify::EenvState;
use eenv::workflow::{decrypt_target, find_repo_root, first_success, init_plan, staged_offenders};

#[test]
fn init_phases_follow_the_state() {
    let s = EenvState { enc: true, example: false, env: true, eenvjson: true };
    let p = init_plan(&s);
    assert!(p.run_decrypt && !p.run_bootstrap && p.process_env && p.make_skeletons);

    let s2 = EenvState { enc: true, example: true, env: true, eenvjson: false };
    let p2 = init_plan(&s2);
    assert!(!p2.run_decrypt && p2.run_bootstrap && p2.process_env && !p2.make_skeletons);

    let s3 = EenvState { enc: false, example: false, env: false, eenvjson: false };
    let p3 = init_plan(&s3);
    assert!(!p3.run_decrypt && !p3.run_bootstrap && !p3.process_env && !p3.make_skeletons);
}

#[test]
fn raw_env_files_block_the_commit() {
    let staged = vec![
        b"/r/src/main.rs".to_vec(),
        b"/r/.env".to_vec(),
        b"/r/.env.example".to_vec(),
        b"/r/.env.enc".to_vec(),
        b"/r/sub/.env.local".to_vec(),
    ];
    let offenders = staged_offenders(&staged);
    assert_eq!(offenders, vec![b"/r/.env".to_vec(), b"/r/sub/.env.local".to_vec()]);
}

#[test]
fn clean_staging_area_passes() {
    let staged = vec![b"/r/src/main.rs".to_vec(), b"/r/.env.example".to_vec()];
    assert!(staged_offenders(&staged).is_empty());
}

#[test]
fn decrypt_never_clobbers_existing_plaintext() {
    assert_eq!(decrypt_target(b"/r/.env.enc", true), None);
    assert_eq!(decrypt_target(b"/r/.env.enc", false), Some(b"/r/.env".to_vec()));
}

#[test]
fn bootstrap_takes_the_first_successful_attempt() {
    assert_eq!(first_success(&vec![false, true, true]), Some(1));
    assert_eq!(first_success(&vec![true]), Some(0));
    assert_eq!(first_success(&vec![false, false]), None);
    assert_eq!(first_success(&Vec::new()), None);
}

#[test]
fn repo_root_is_first_marked_ancestor() {
    let candidates = vec![b"/a/b/c".to_vec(), b"/a/b".to_vec(), b"/a".to_vec()];
    let markers = vec![false, true, true];
    assert_eq!(find_repo_root(&candidates, &markers, b"/a/b/c"), b"/a/b".to_vec());
    let none = vec![false, false, false];
    assert_eq!(find_repo_root(&candidates, &none, b"/a/b/c"), b"/a/b/c".to_vec());
}
