use eenv::skeleton::{
    ensure_env_examples_from_skeletons, extract_env_skeleton, extract_env_skeletons,
    skeleton_line, ExampleAction,
};

#[test]
fn scenario_basic_env_file() {
    // `.env` holding `A=1\n#c\n\nB=2` yields `A=` / `#c` / blank / `B=`
    let content = b"A=1\n#c\n\nB=2".to_vec();
    let skel = extract_env_skeleton(&content);
    assert_eq!(skel, b"A=\n#c\n\nB=\n".to_vec());
}

#[test]
fn scenario_creates_example_path() {
    let files = vec![(b".env".to_vec(), b"A=1\n#c\n\nB=2".to_vec())];
    let skels = extract_env_skeletons(&files);
    assert_eq!(skels.len(), 1);
    assert_eq!(skels[0].0, b".env".to_vec());
    assert_eq!(skels[0].1, b"A=\n#c\n\nB=\n".to_vec());
    let exists = vec![false];
    let plan = ensure_env_examples_from_skeletons(&skels, &exists);
    assert_eq!(plan.len(), 1);
    assert_eq!(plan[0].0, b".env.example".to_vec());
    assert!(matches!(plan[0].1, ExampleAction::Created));
}

#[test]
fn value_stripped_key_trimmed() {
    assert_eq!(skeleton_line(b"  KEY = secret value "), b"KEY=".to_vec());
    assert_eq!(skeleton_line(b"A=1"), b"A=".to_vec());
    assert_eq!(skeleton_line(b"A=="), b"A=".to_vec());
    assert_eq!(skeleton_line(b"=x"), b"=".to_vec());
}

#[test]
fn comments_and_blanks_preserved() {
    assert_eq!(skeleton_line(b"# a comment = with equals"), b"# a comment = with equals".to_vec());
    assert_eq!(skeleton_line(b"   # indented"), b"   # indented".to_vec());
    assert_eq!(skeleton_line(b"   "), b"".to_vec());
    assert_eq!(skeleton_line(b""), b"".to_vec());
    assert_eq!(skeleton_line(b"malformed line"), b"malformed line".to_vec());
}

#[test]
fn line_transform_idempotent() {
    let cases: Vec<&[u8]> = vec![b"A=1", b"# c", b"", b"  K = v ", b"plain", b"=x"];
    for c in cases {
        let once = skeleton_line(c);
        let twice = skeleton_line(&once);
        assert_eq!(once, twice);
    }
}

#[test]
fn document_transform_idempotent() {
    let content = b"A=1\n#c\n\nB=2\nmalformed\n".to_vec();
    let once = extract_env_skeleton(&content);
    let twice = extract_env_skeleton(&once);
    assert_eq!(once, twice);
}

#[test]
fn source_already_example_is_skipped() {
    let files = vec![(b".env.example".to_vec(), b"A=\n".to_vec())];
    let skels = extract_env_skeletons(&files);
    let exists = vec![true];
    let plan = ensure_env_examples_from_skeletons(&skels, &exists);
    assert_eq!(plan[0].0, b".env.example".to_vec());
    assert!(matches!(plan[0].1, ExampleAction::SourceIsExample));
}

#[test]
fn existing_target_is_overwritten() {
    let files = vec![(b".env".to_vec(), b"A=1\n".to_vec())];
    let skels = extract_env_skeletons(&files);
    let exists = vec![true];
    let plan = ensure_env_examples_from_skeletons(&skels, &exists);
    assert!(matches!(plan[0].1, ExampleAction::Overwritten));
}

#[test]
fn crlf_lines_are_normalized() {
    let content = b"A=1\r\n#c\r\n".to_vec();
    let skel = extract_env_skeleton(&content);
    assert_eq!(skel, b"A=\n#c\n".to_vec());
}

#[test]
fn only_one_trailing_carriage_return_is_stripped() {
    // a doubled carriage return before the newline keeps one, as
    // standard line splitting does
    let skel = extract_env_skeleton(b"x\r\r\n");
    assert_eq!(skel, b"x\r\n".to_vec());
}
