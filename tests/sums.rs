use cloud_checksum::ctx::Ctx;
use cloud_checksum::error::Error;
use cloud_checksum::sums::{Checksum, PartChecksums, SumsFile};

const EXPECTED_MD5_SUM: &str = "cd573cfaace07e7949bc0c46028904ff";
const EXPECTED_ETAG: &str = "1c3490f45b0cdc4299a128410def3a1d-b";
const EXPECTED_MD5_1GIB: &str = "6c434b38867bbd608ba2f06e92ed4e43-1073741824b";

fn aws(spec: &str, size: u64) -> Ctx {
    let mut ctx = Ctx::from_str(spec).unwrap();
    ctx.set_file_size(Some(size));
    ctx
}

fn parts(pairs: Vec<(Option<u64>, Option<String>)>) -> Option<PartChecksums> {
    Some(PartChecksums::from_pairs(pairs))
}

fn expected_output_file(expected_md5: &str) -> SumsFile {
    let key = aws("md5-aws-123b", 123).to_string();
    SumsFile::new(
        vec![],
        Some(123),
        vec![(
            key,
            Checksum::new(
                EXPECTED_ETAG.to_string(),
                parts(vec![(Some(1), Some(expected_md5.to_string()))]),
            ),
        )],
    )
}

fn set_checksums(expected_md5: &str, file: &SumsFile, ctx: &Ctx) -> SumsFile {
    SumsFile::new(
        file.names().clone(),
        file.size(),
        vec![(
            ctx.to_string(),
            Checksum::new(
                EXPECTED_MD5_1GIB.to_string(),
                parts(vec![(Some(1), Some(expected_md5.to_string()))]),
            ),
        )],
    )
}

#[test]
fn is_same() {
    let expected_md5 = EXPECTED_MD5_SUM;
    let file_one = expected_output_file(expected_md5);
    let mut file_two = file_one.clone();
    let aws_ctx = aws("md5-aws-123b", 123);
    file_two.add_checksum(
        &aws_ctx,
        Checksum::new(
            EXPECTED_ETAG.to_string(),
            parts(vec![(Some(123), Some(expected_md5.to_string()))]),
        ),
    );
    assert!(file_one.is_same(&file_two));

    let file_two = set_checksums(expected_md5, &file_one, &aws("aws-etag-1b", 1));
    assert!(!file_one.is_same(&file_two));
}

#[test]
fn comparable() {
    let expected_md5 = EXPECTED_MD5_SUM;
    let file_one = expected_output_file(expected_md5);
    let mut file_two = file_one.clone();
    file_two.add_checksum(
        &aws("md5-aws-1b", 1),
        Checksum::new(
            EXPECTED_MD5_1GIB.to_string(),
            parts(vec![(Some(1), Some(expected_md5.to_string()))]),
        ),
    );
    assert!(file_one.comparable(&file_two));

    let file_two = set_checksums(expected_md5, &file_one, &aws("aws-etag-1b", 1));
    assert!(!file_one.comparable(&file_two));
}

#[test]
fn merge() {
    let expected_md5 = EXPECTED_MD5_SUM;
    let mut file_one = expected_output_file(expected_md5);
    let aws_one = aws("aws-etag-123b", 123);
    file_one.add_checksum(
        &aws_one,
        Checksum::new(
            expected_md5.to_string(),
            parts(vec![(Some(123), Some(expected_md5.to_string()))]),
        ),
    );

    let aws_two = aws("md5-aws-123b", 123);
    let file_two = set_checksums(expected_md5, &expected_output_file(expected_md5), &aws_two);

    let result = file_one.clone().merge(file_two).unwrap();
    assert_eq!(result.size(), file_one.size());
    let expected = SumsFile::new(
        vec![],
        Some(123),
        vec![
            (
                aws_two.to_string(),
                Checksum::new(
                    EXPECTED_MD5_1GIB.to_string(),
                    parts(vec![(Some(1), Some(expected_md5.to_string()))]),
                ),
            ),
            (
                aws_one.to_string(),
                Checksum::new(
                    EXPECTED_MD5_1GIB.to_string(),
                    parts(vec![(Some(1), Some(expected_md5.to_string()))]),
                ),
            ),
        ],
    );
    assert_eq!(result.checksums(), expected.checksums());
}

fn entry(spec: &str, value: &str) -> (String, Checksum) {
    (Ctx::from_str(spec).unwrap().to_string(), Checksum::new(value.to_string(), None))
}

#[test]
fn merge_with_different_sizes_fails() {
    let a = SumsFile::new(vec![], Some(1), vec![entry("md5", "1")]);
    let b = SumsFile::new(vec![], Some(2), vec![entry("sha1", "2")]);
    assert!(matches!(a.clone().merge(b), Err(Error::SumsFileError(_))));
    let empty = SumsFile::new(vec![], Some(2), vec![]);
    let m = a.merge(empty).unwrap();
    assert_eq!(m.size(), Some(1));
}

#[test]
fn merge_overwrites_and_keeps_entries() {
    let a = SumsFile::new(vec!["a".to_string()], Some(1), vec![entry("md5", "1"), entry("sha1", "2")]);
    let b = SumsFile::new(vec!["b".to_string()], Some(1), vec![entry("sha1", "3"), entry("crc32", "4")]);
    let m = a.merge(b).unwrap();
    let keys: Vec<(String, String)> = m
        .checksums()
        .iter()
        .map(|(k, v)| (k.clone(), v.checksum.clone()))
        .collect();
    assert_eq!(
        keys,
        vec![
            ("crc32".to_string(), "4".to_string()),
            ("md5".to_string(), "1".to_string()),
            ("sha1".to_string(), "3".to_string()),
        ]
    );
    assert_eq!(m.names(), &vec!["a".to_string(), "b".to_string()]);
}

#[test]
fn later_entry_wins_in_new() {
    let f = SumsFile::new(vec![], None, vec![entry("md5", "1"), entry("md5", "2")]);
    assert_eq!(f.checksums().len(), 1);
    assert_eq!(f.checksums()[0].1.checksum, "2");
}

#[test]
fn split_gives_one_manifest_per_entry() {
    let f = SumsFile::new(vec!["x".to_string()], Some(9), vec![entry("md5", "1"), entry("sha1", "2")]);
    let parts = f.split();
    assert_eq!(parts.len(), 2);
    assert_eq!(parts[0].size(), Some(9));
    assert_eq!(parts[0].checksums(), &vec![entry("md5", "1")]);
    assert_eq!(parts[1].checksums(), &vec![entry("sha1", "2")]);
    assert!(parts[1].names().is_empty());
}

#[test]
fn sums_file_names() {
    assert_eq!(SumsFile::format_sums_file("a/b"), "a/b.sums");
    assert_eq!(SumsFile::format_sums_file("a/b.sums"), "a/b.sums");
    assert_eq!(SumsFile::format_target_file("a/b.sums"), "a/b");
    assert_eq!(SumsFile::format_target_file("a/b"), "a/b");
}

#[test]
fn different_sizes_are_never_same() {
    let a = SumsFile::new(vec![], Some(1), vec![entry("md5", "1")]);
    let b = SumsFile::new(vec![], Some(2), vec![entry("md5", "1")]);
    assert!(!a.is_same(&b));
    assert!(!a.comparable(&b));
}

#[test]
fn merge_is_associative() {
    let a = SumsFile::new(vec!["a".to_string()], Some(1), vec![entry("md5", "1"), entry("sha1", "2")]);
    let b = SumsFile::new(vec!["b".to_string()], Some(1), vec![entry("sha1", "3"), entry("crc32", "4")]);
    let c = SumsFile::new(vec!["c".to_string()], Some(1), vec![entry("crc32", "5"), entry("md5", "6")]);
    let left = a.clone().merge(b.clone()).unwrap().merge(c.clone()).unwrap();
    let right = a.merge(b.merge(c).unwrap()).unwrap();
    assert_eq!(left, right);
}

#[test]
fn merge_takes_the_second_size_when_the_first_has_none() {
    let a = SumsFile::new(vec![], None, vec![]);
    let b = SumsFile::new(vec![], Some(5), vec![entry("md5", "1")]);
    assert_eq!(a.merge(b).unwrap().size(), Some(5));
    let c = SumsFile::new(vec![], Some(3), vec![]);
    let d = SumsFile::new(vec![], Some(5), vec![]);
    assert_eq!(c.merge(d).unwrap().size(), Some(3));
}

#[test]
fn conflicting_digests_are_found() {
    let a = SumsFile::new(vec![], Some(1), vec![entry("md5", "1"), entry("sha1", "2")]);
    let b = SumsFile::new(vec![], Some(1), vec![entry("sha1", "3")]);
    let c = SumsFile::new(vec![], Some(1), vec![entry("sha1", "2"), entry("crc32", "9")]);
    assert!(a.conflicts_with(&b));
    assert!(!a.conflicts_with(&c));
    assert_eq!(SumsFile::new(vec![], None, vec![]).version(), "1");
}
