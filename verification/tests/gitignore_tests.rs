use eenv::gitignore::{fix_gitignore_from_found, is_banned_core, pattern_core};

#[test]
fn scenario_banned_pattern_removed_and_env_added() {
    // `.gitignore` holds `.env.example`; reconciliation removes it and,
    // since a real `.env` was discovered, adds `.env`
    let root = b"/repo".to_vec();
    let original = b".env.example\n".to_vec();
    let files = vec![b"/repo/.env".to_vec()];
    let edit = fix_gitignore_from_found(&root, &original, &files);
    assert_eq!(edit.path, b"/repo/.gitignore".to_vec());
    assert_eq!(edit.removed, vec![b".env.example".to_vec()]);
    assert!(edit.added.contains(&b".env".to_vec()));
    assert!(edit.added.contains(&b"eenv.config.json".to_vec()));
    assert!(edit.changed);
    assert_eq!(edit.text, b"# added by eenv\n.env\neenv.config.json\n".to_vec());
}

#[test]
fn reconciliation_idempotent_on_second_run() {
    let root = b"/repo".to_vec();
    let original = b"target\n.env.enc\n".to_vec();
    let files = vec![b"/repo/.env".to_vec(), b"/repo/sub/.env.local".to_vec()];
    let first = fix_gitignore_from_found(&root, &original, &files);
    assert!(first.changed);
    let second = fix_gitignore_from_found(&root, &first.text, &files);
    assert!(!second.changed);
    assert!(second.added.is_empty());
    assert!(second.removed.is_empty());
    assert_eq!(second.text, first.text);
}

#[test]
fn no_change_when_everything_present() {
    let root = b"/repo".to_vec();
    let original = b".env\neenv.config.json\n".to_vec();
    let files = vec![b"/repo/.env".to_vec()];
    let edit = fix_gitignore_from_found(&root, &original, &files);
    assert!(!edit.changed);
    assert!(edit.added.is_empty());
    assert!(edit.removed.is_empty());
}

#[test]
fn added_patterns_are_sorted_and_relative() {
    let root = b"/repo".to_vec();
    let original = b"".to_vec();
    let files = vec![
        b"/repo/sub/.env.local".to_vec(),
        b"/repo/.env".to_vec(),
    ];
    let edit = fix_gitignore_from_found(&root, &original, &files);
    assert_eq!(
        edit.added,
        vec![b".env".to_vec(), b"eenv.config.json".to_vec(), b"sub/.env.local".to_vec()]
    );
}

#[test]
fn discovered_skeletons_and_artifacts_are_not_required() {
    let root = b"/repo".to_vec();
    let original = b"".to_vec();
    let files = vec![
        b"/repo/.env.example".to_vec(),
        b"/repo/.env.enc".to_vec(),
        b"/repo/.env".to_vec(),
    ];
    let edit = fix_gitignore_from_found(&root, &original, &files);
    assert_eq!(edit.added, vec![b".env".to_vec(), b"eenv.config.json".to_vec()]);
}

#[test]
fn spaces_are_escaped_in_patterns() {
    let root = b"/repo".to_vec();
    let original = b"".to_vec();
    let files = vec![b"/repo/my dir/.env".to_vec()];
    let edit = fix_gitignore_from_found(&root, &original, &files);
    assert!(edit.added.contains(&b"my\\ dir/.env".to_vec()));
}

#[test]
fn files_outside_the_root_are_skipped() {
    let root = b"/repo".to_vec();
    let original = b"".to_vec();
    let files = vec![b"/elsewhere/.env".to_vec()];
    let edit = fix_gitignore_from_found(&root, &original, &files);
    assert_eq!(edit.added, vec![b"eenv.config.json".to_vec()]);
}

#[test]
fn comment_only_lines_survive() {
    let root = b"/repo".to_vec();
    let original = b"# .env.example\n.env\neenv.config.json\n".to_vec();
    let files = vec![b"/repo/.env".to_vec()];
    let edit = fix_gitignore_from_found(&root, &original, &files);
    // the banned core appears only inside a comment: nothing is removed
    assert!(edit.removed.is_empty());
    assert!(!edit.changed);
}

#[test]
fn core_strips_comment_and_whitespace() {
    assert_eq!(pattern_core(b"  .env  # keep secrets out"), b".env".to_vec());
    assert_eq!(pattern_core(b"# pure comment"), b"".to_vec());
    assert_eq!(pattern_core(b"plain"), b"plain".to_vec());
}

#[test]
fn banned_vocabulary_is_exact() {
    assert!(is_banned_core(b".env.example"));
    assert!(is_banned_core(b".env*.example"));
    assert!(is_banned_core(b".env.*.example"));
    assert!(is_banned_core(b"*.env.example"));
    assert!(is_banned_core(b".env.enc"));
    assert!(is_banned_core(b".env*.enc"));
    assert!(is_banned_core(b".env.*.enc"));
    assert!(is_banned_core(b"*.env.enc"));
    // narrow matching: other wildcard spellings stay
    assert!(!is_banned_core(b"**/.env.example"));
    assert!(!is_banned_core(b".env"));
}

#[test]
fn blank_separator_before_appended_block() {
    let root = b"/repo".to_vec();
    let original = b"target\n".to_vec();
    let files = vec![b"/repo/.env".to_vec()];
    let edit = fix_gitignore_from_found(&root, &original, &files);
    assert_eq!(edit.text, b"target\n\n# added by eenv\n.env\neenv.config.json\n".to_vec());
}

#[test]
fn config_coverage_appended_once() {
    let (text, changed) = eenv::gitignore::ensure_gitignore_has_config(b"target\n");
    assert!(changed);
    assert_eq!(text, b"target\n\n# added by eenv\neenv.config.json\n".to_vec());
    let (text2, changed2) = eenv::gitignore::ensure_gitignore_has_config(&text);
    assert!(!changed2);
    assert_eq!(text2, text);
}

#[test]
fn config_coverage_leaves_other_lines_alone() {
    // unlike full reconciliation, this touches nothing else, not even a
    // banned line
    let orig = b".env.example\neenv.config.json\n".to_vec();
    let (text, changed) = eenv::gitignore::ensure_gitignore_has_config(&orig);
    assert!(!changed);
    assert_eq!(text, orig);
}
