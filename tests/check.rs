use cloud_checksum::check::{CheckOutput, CheckTaskBuilder, GroupBy};
use cloud_checksum::ctx::Ctx;
use cloud_checksum::sums::{Checksum, SumsFile};

const TEST_FILE_SIZE: u64 = 1073741824;

fn key(spec: &str) -> String {
    Ctx::from_str(spec).unwrap().to_string()
}

fn file(name: &str, entries: Vec<(&str, &str)>) -> SumsFile {
    SumsFile::new(
        vec![name.to_string()],
        Some(TEST_FILE_SIZE),
        entries
            .into_iter()
            .map(|(k, v)| (key(k), Checksum::new(v.to_string(), None)))
            .collect(),
    )
}

fn expected(names: Vec<&str>, entries: Vec<(&str, &str)>) -> SumsFile {
    SumsFile::new(
        names.into_iter().map(|n| n.to_string()).collect(),
        Some(TEST_FILE_SIZE),
        entries
            .into_iter()
            .map(|(k, v)| (key(k), Checksum::new(v.to_string(), None)))
            .collect(),
    )
}

fn cleared(names: Vec<&str>, specs: Vec<&str>) -> SumsFile {
    SumsFile::new(
        names.into_iter().map(|n| n.to_string()).collect(),
        Some(TEST_FILE_SIZE),
        specs.into_iter().map(|k| (key(k), Checksum::default())).collect(),
    )
}

fn test_files() -> Vec<SumsFile> {
    vec![
        file("a", vec![("md5", "123"), ("sha1", "456")]),
        file("b", vec![("sha1", "456"), ("sha256", "789")]),
    ]
}

fn test_files_one_group() -> Vec<SumsFile> {
    let mut files = test_files();
    files.push(file("c", vec![("sha256", "789"), ("crc32", "012")]));
    files
}

fn test_files_not_comparable() -> Vec<SumsFile> {
    let mut files = test_files();
    files.push(file("c", vec![("crc32c", "789"), ("crc32", "012")]));
    files
}

fn test_files_multiple_groups() -> Vec<SumsFile> {
    let mut files = test_files();
    files.push(file("c", vec![("sha256", "abc"), ("crc32", "efg")]));
    files.push(file("d", vec![("crc32", "efg"), ("crc32c", "hij")]));
    files
}

fn run(files: Vec<SumsFile>, group_by: GroupBy) -> Vec<SumsFile> {
    let names = vec!["a".to_string(), "b".to_string()];
    CheckTaskBuilder::default()
        .with_input_files(names)
        .with_group_by(group_by)
        .build(files)
        .run()
}

#[test]
fn test_check() {
    let result = run(test_files_one_group(), GroupBy::Equality);
    assert_eq!(
        result,
        vec![expected(
            vec!["a", "b", "c"],
            vec![("md5", "123"), ("sha1", "456"), ("sha256", "789"), ("crc32", "012")]
        )]
    );
}

#[test]
fn test_check_comparable() {
    let result = run(test_files_multiple_groups(), GroupBy::Comparability);
    assert_eq!(
        result,
        vec![cleared(
            vec!["a", "b", "c", "d"],
            vec!["md5", "sha1", "sha256", "crc32", "crc32c"]
        )]
    );
}

#[test]
fn test_check_multiple_groups() {
    let result = run(test_files_multiple_groups(), GroupBy::Equality);
    assert_eq!(
        result,
        vec![
            expected(vec!["a", "b"], vec![("md5", "123"), ("sha1", "456"), ("sha256", "789")]),
            expected(vec!["c", "d"], vec![("sha256", "abc"), ("crc32", "efg"), ("crc32c", "hij")]),
        ]
    );
}

#[test]
fn test_check_comparable_multiple_groups() {
    let result = run(test_files_not_comparable(), GroupBy::Comparability);
    assert_eq!(
        result,
        vec![
            cleared(vec!["a", "b"], vec!["md5", "sha1", "sha256"]),
            cleared(vec!["c"], vec!["crc32", "crc32c"]),
        ]
    );
}

#[test]
fn check_is_idempotent() {
    for group_by in [GroupBy::Equality, GroupBy::Comparability] {
        for files in [test_files_one_group(), test_files_multiple_groups(), test_files_not_comparable()] {
            let once = run(files, group_by);
            let twice = run(once.clone(), group_by);
            assert_eq!(once, twice);
        }
    }
}

#[test]
fn transitive_grouping() {
    let result = run(
        vec![
            file("c", vec![("sha256", "3"), ("crc32", "4")]),
            file("a", vec![("md5", "1"), ("sha1", "2")]),
            file("b", vec![("sha1", "2"), ("sha256", "3")]),
        ],
        GroupBy::Equality,
    );
    assert_eq!(result.len(), 1);
    assert_eq!(result[0].names(), &vec!["a".to_string(), "b".to_string(), "c".to_string()]);
}

#[test]
fn conflicting_digests_give_separate_groups() {
    let result = run(
        vec![
            file("a", vec![("md5", "1")]),
            file("b", vec![("md5", "2")]),
        ],
        GroupBy::Equality,
    );
    assert_eq!(result.len(), 2);
}

#[test]
fn builder_and_output() {
    let b = CheckTaskBuilder::default()
        .with_input_files(vec!["x".to_string()])
        .generate_missing(GroupBy::Comparability)
        .update();
    assert_eq!(b.input_files(), &vec!["x".to_string()]);
    assert_eq!(b.group_by(), GroupBy::Comparability);
    assert!(b.updates());
    let out = CheckOutput::new(vec![vec!["x".to_string()]], GroupBy::Equality);
    assert_eq!(out.groups.len(), 1);
}

#[test]
fn missing_specs_connect_groups() {
    let groups = run(test_files_not_comparable(), GroupBy::Comparability);
    let mut pairs = cloud_checksum::check::missing_specs(&groups);
    pairs.sort();
    pairs.dedup();
    let expected: Vec<(String, String)> = vec![
        ("a", "crc32"),
        ("a", "crc32c"),
        ("b", "crc32"),
        ("b", "crc32c"),
        ("c", "md5"),
        ("c", "sha1"),
        ("c", "sha256"),
    ]
    .into_iter()
    .map(|(n, k)| (n.to_string(), k.to_string()))
    .collect();
    assert_eq!(pairs, expected);
}

#[test]
fn chain_with_conflicting_value_splits() {
    let result = run(
        vec![
            file("a", vec![("md5", "1"), ("sha1", "x")]),
            file("b", vec![("md5", "1")]),
            file("d", vec![("sha1", "x"), ("md5", "2")]),
        ],
        GroupBy::Equality,
    );
    assert_eq!(result.len(), 2);
    assert_eq!(result[0].names(), &vec!["a".to_string(), "d".to_string()]);
    assert_eq!(result[1].names(), &vec!["b".to_string()]);
}
