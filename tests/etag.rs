use cloud_checksum::aws_etag::{AWSETagCtx, PartMode};
use cloud_checksum::ctx::Ctx;
use cloud_checksum::digest::{Algorithm, StandardCtx};
use cloud_checksum::error::Error;

fn assert_update_part_sizes(part_sizes: Vec<u64>, file_size: u64, expected: Vec<u64>) {
    let mut ctx = AWSETagCtx::new(
        StandardCtx::new(Algorithm::MD5),
        PartMode::PartSizes(part_sizes),
        Some(file_size),
    );
    ctx.update_part_sizes();
    assert_eq!(ctx.part_mode(), &PartMode::PartSizes(expected));
}

#[test]
fn test_update_part_sizes() {
    assert_update_part_sizes(vec![214748365], 1073741824, vec![214748365]);
    assert_update_part_sizes(
        vec![214748365, 214748365, 214748365, 214748365, 214748364],
        1073741824,
        vec![214748365],
    );
    assert_update_part_sizes(
        vec![214748365, 214748365, 214748365, 214748365, 214748365],
        1073741824,
        vec![214748365],
    );
    assert_update_part_sizes(
        vec![214748365, 214748365, 214748365, 214748365, 214748366],
        1073741824,
        vec![214748365],
    );
    assert_update_part_sizes(
        vec![214748365, 214748365, 214748365, 214748365, 214748367],
        1073741826,
        vec![214748365, 214748365, 214748365, 214748365, 214748366],
    );

    assert_update_part_sizes(
        vec![214748365, 214748365, 429496730, 214748364],
        1073741824,
        vec![214748365, 214748365, 429496730],
    );
    assert_update_part_sizes(
        vec![214748365, 214748365, 429496730, 214748366],
        1073741824,
        vec![214748365, 214748365, 429496730],
    );
    assert_update_part_sizes(
        vec![214748365, 214748365, 429496730, 214748365],
        1073741824,
        vec![214748365, 214748365, 429496730],
    );

    assert_update_part_sizes(
        vec![214748365, 214748365, 429496730],
        644245094,
        vec![214748365],
    );

    assert_update_part_sizes(
        vec![214748365, 214748365, 429496730, 214748364],
        1073741825,
        vec![214748365, 214748365, 429496730, 214748364],
    );

    assert_update_part_sizes(
        vec![214748365, 214748365, 429496730, 214748365, 429496730],
        1073741826,
        vec![214748365, 214748365, 429496730, 214748365],
    );

    assert_update_part_sizes(
        vec![214748365, 214748365, 429496730, 214748365, 600000000],
        1288590200,
        vec![214748365, 214748365, 429496730, 214748365, 214848375],
    );
}

#[test]
fn schedule_normalization_examples() {
    assert_update_part_sizes(vec![214748365; 5], 1073741824, vec![214748365]);
    assert_update_part_sizes(
        vec![214748365, 214748365, 429496730, 214748365, 600000000],
        1288590200,
        vec![214748365, 214748365, 429496730, 214748365, 214848375],
    );
}

#[test]
fn normalized_schedule_tiles_the_object() {
    let mut sizes = vec![100, 300, 50];
    cloud_checksum::schedule::iterate_part_sizes(1000, &mut sizes);
    assert_eq!(sizes, vec![100, 300, 50, 50, 50, 50, 50, 50, 50, 50, 50, 50, 50, 50]);
    assert_eq!(sizes.iter().sum::<u64>(), 1000);
    let mut sizes = vec![100, 300, 50];
    cloud_checksum::schedule::iterate_part_sizes(250, &mut sizes);
    assert_eq!(sizes, vec![100, 150]);
    let mut sizes = vec![7];
    cloud_checksum::schedule::iterate_part_sizes(0, &mut sizes);
    assert_eq!(sizes, vec![0]);
}

fn pattern() -> Vec<u8> {
    let mut v = Vec::new();
    for _ in 0..4 {
        for b in 0..=255u8 {
            v.push(b);
        }
    }
    v
}

fn digest_in_chunks(spec: &str, file_size: Option<u64>, data: &[u8], chunk: usize) -> String {
    let mut ctx = Ctx::from_str(spec).unwrap();
    ctx.set_file_size(file_size);
    for c in data.chunks(chunk) {
        ctx.update(c).unwrap();
    }
    let digest = ctx.finalize().unwrap();
    ctx.digest_to_string(&digest)
}

#[test]
fn composite_md5_explicit_size() {
    let data = pattern();
    assert_eq!(
        digest_in_chunks("md5-aws-100b", None, &data, 64),
        "b110a6da3a4ee1aa2d020c17680598e1-100b"
    );
}

#[test]
fn composite_sha256_two_sizes() {
    let data = pattern();
    let mut ctx = Ctx::from_str("sha256-aws-300b-200b").unwrap();
    ctx.update(&data).unwrap();
    let digest = ctx.finalize().unwrap();
    assert_eq!(
        ctx.digest_to_string(&digest),
        "fa57dc3219e386fa4402f72543d1622f27488975b028f7864feb31dcf3acfe4f-300b-200b"
    );
    let parts = ctx.part_checksums().unwrap();
    assert_eq!(parts.len(), 5);
    assert_eq!(
        parts[0],
        (300, "7728ae2f2c36e2aaafbe79ca14c87ae2f89e7c88c4390ecbbf82dce88706958d".to_string())
    );
    assert_eq!(
        parts[4],
        (124, "114176ef50fa1e456263cf4951fdc4d29c0af242a4d5f5cd90729a8efbbbec6f".to_string())
    );
    assert_eq!(ctx.to_string(), "sha256-aws-300b-200b");
}

#[test]
fn composite_part_count() {
    let data = pattern();
    let mut ctx = Ctx::from_str("aws-etag-3").unwrap();
    ctx.set_file_size(Some(1024));
    assert_eq!(ctx.to_string(), "md5-aws-342b");
    assert_eq!(ctx.part_size(), Some(342));
    for c in data.chunks(100) {
        ctx.update(c).unwrap();
    }
    let digest = ctx.finalize().unwrap();
    assert_eq!(ctx.digest_to_string(&digest), "c097c16fb1a4ac38f30b1ff5f93f2036-342b");
    let parts = ctx.part_checksums().unwrap();
    assert_eq!(
        parts,
        vec![
            (342, "50f0c7195337228c88e385e0fe601a15".to_string()),
            (342, "2e151585397d71b48550cf5e180559f7".to_string()),
            (340, "341d1c22ca10c7e494cc41acc1c1c34a".to_string()),
        ]
    );
}

#[test]
fn composite_single_part_larger_than_object() {
    let data = pattern();
    assert_eq!(
        digest_in_chunks("sha1-aws-1kib", None, &data, 1000),
        "f6da9fba010d83cef9491239e58890530e2844a0-1024b"
    );
    assert_eq!(
        digest_in_chunks("sha1-aws-2kib", None, &data, 1000),
        "f6da9fba010d83cef9491239e58890530e2844a0-1024b"
    );
}

#[test]
fn chunking_does_not_change_digests() {
    let data = pattern();
    for spec in ["md5", "sha1", "sha256", "crc32", "crc32c", "md5-aws-100b", "sha256-aws-300b-200b"] {
        let one = digest_in_chunks(spec, None, &data, 1024);
        for chunk in [1, 7, 99, 100, 101, 333, 1000] {
            assert_eq!(digest_in_chunks(spec, None, &data, chunk), one, "{spec} {chunk}");
        }
    }
}

#[test]
fn part_count_needs_file_size() {
    let mut ctx = Ctx::from_str("md5-aws-10").unwrap();
    assert!(matches!(ctx.update(&[1, 2, 3]), Err(Error::ParseError(_))));
}

#[test]
fn zero_part_size_is_rejected_when_data_arrives() {
    let mut ctx = Ctx::from_str("md5-aws-0b").unwrap();
    assert!(matches!(ctx.update(&[1]), Err(Error::ParseError(_))));
}

#[test]
fn parse_canonical_forms() {
    let cases = [
        ("md5-aws-1gib", "md5-aws-1073741824b"),
        ("aws-etag-1gib", "md5-aws-1073741824b"),
        ("md5-aws-100mib", "md5-aws-104857600b"),
        ("aws-etag-100mib", "md5-aws-104857600b"),
        ("sha256-aws-100mib", "sha256-aws-104857600b"),
        ("md5-aws-123b", "md5-aws-123b"),
        ("md5", "md5"),
        ("sha1", "sha1"),
        ("sha256", "sha256"),
        ("crc32", "crc32"),
        ("crc32c", "crc32c"),
    ];
    for (input, canonical) in cases {
        let ctx = Ctx::from_str(input).unwrap();
        assert_eq!(ctx.to_string(), canonical, "{input}");
        let again = Ctx::from_str(&ctx.to_string()).unwrap();
        assert_eq!(again.to_string(), canonical);
    }
    let mut bare = Ctx::from_str("aws-etag").unwrap();
    bare.set_file_size(Some(10));
    assert_eq!(bare.to_string(), "md5-aws-10b");
}

#[test]
fn parse_part_size_splits_base_and_schedule() {
    let (base, mode) = AWSETagCtx::parse_part_size("aws-etag-10").unwrap();
    assert_eq!(base, "md5");
    assert_eq!(mode, PartMode::PartNumber(10));
    let (base, mode) = AWSETagCtx::parse_part_size("sha1-aws-1kib-2kib").unwrap();
    assert_eq!(base, "sha1");
    assert_eq!(mode, PartMode::PartSizes(vec![1024, 2048]));
}

#[test]
fn parse_errors() {
    for bad in ["md5-aws-0", "md5-aws-abc", "sha3", "", "md6-aws-10", "md5-aws-1mib-"] {
        assert!(matches!(Ctx::from_str(bad), Err(Error::ParseError(_))), "{bad}");
    }
}

#[test]
fn part_number_to_size_rounds_up() {
    assert_eq!(AWSETagCtx::part_number_to_size(10, 1073741824), 107374183);
    assert_eq!(AWSETagCtx::part_number_to_size(4, 8), 2);
    assert_eq!(AWSETagCtx::part_number_to_size(3, 0), 0);
}

#[test]
fn canonical_schedule_reexpands_to_the_same_parts() {
    let cases: Vec<(Vec<u64>, u64)> = vec![
        (vec![100, 100, 200, 99], 499),
        (vec![100, 100, 200, 99], 500),
        (vec![100; 5], 499),
        (vec![100, 100, 200, 100, 600], 1000),
        (vec![7], 100),
        (vec![5, 3], 0),
    ];
    for (declared, total) in cases {
        let mut tiled = declared.clone();
        cloud_checksum::schedule::iterate_part_sizes(total, &mut tiled);
        let mut canonical = tiled.clone();
        cloud_checksum::schedule::remove_duplicates(&mut canonical);
        let mut again = canonical.clone();
        cloud_checksum::schedule::iterate_part_sizes(total, &mut again);
        assert_eq!(again, tiled, "{declared:?} {total}");
    }
}

#[test]
fn generate_over_chunk_lists() {
    let data = pattern();
    let whole = vec![data.clone()];
    let pieces: Vec<Vec<u8>> = data.chunks(77).map(|c| c.to_vec()).collect();
    for spec in ["md5", "sha256-aws-300b-200b"] {
        let mut a = Ctx::from_str(spec).unwrap();
        let mut b = Ctx::from_str(spec).unwrap();
        let da = a.generate(&whole).unwrap();
        let db = b.generate(&pieces).unwrap();
        assert_eq!(da, db);
        assert_eq!(a.digest_to_string(&da), b.digest_to_string(&db));
    }
    let mut c = Ctx::from_str("md5-aws-10").unwrap();
    assert!(matches!(c.generate(&pieces), Err(Error::ParseError(_))));
    let mut d = Ctx::from_str("md5-aws-10").unwrap();
    assert!(d.generate(&Vec::new()).is_ok());
}

#[test]
fn next_part_size_stays_on_the_last_size() {
    let mut ctx = AWSETagCtx::new(
        StandardCtx::new(Algorithm::SHA1),
        PartMode::PartSizes(vec![5, 7]),
        None,
    );
    assert_eq!(ctx.next_part_size().unwrap(), 5);
    assert_eq!(ctx.next_part_size().unwrap(), 7);
    assert_eq!(ctx.next_part_size().unwrap(), 7);
    assert_eq!(ctx.format_parts(), "5b-7b");
    let mut counted = AWSETagCtx::new(StandardCtx::new(Algorithm::MD5), PartMode::PartNumber(4), None);
    assert!(matches!(counted.next_part_size(), Err(Error::ParseError(_))));
    counted.set_file_size(Some(10));
    assert_eq!(counted.next_part_size().unwrap(), 3);
    assert_eq!(counted.format_parts(), "3b");
    assert_eq!(counted.digest_to_string(&[0xab, 0x01]), "ab01-3b");
}

#[test]
fn update_records_each_closed_part() {
    let data = pattern();
    let mut ctx = AWSETagCtx::new(StandardCtx::new(Algorithm::MD5), PartMode::PartSizes(vec![342]), None);
    assert!(ctx.part_checksums().is_empty());
    ctx.update(&data[..342]).unwrap();
    assert!(ctx.part_checksums().is_empty());
    ctx.update(&data[342..600]).unwrap();
    assert_eq!(
        ctx.part_checksums(),
        vec![(342, "50f0c7195337228c88e385e0fe601a15".to_string())]
    );
    ctx.update(&data[600..]).unwrap();
    assert_eq!(ctx.part_checksums().len(), 2);
    ctx.finalize().unwrap();
    assert_eq!(ctx.part_checksums().len(), 3);
}

#[test]
fn oversized_literals_are_refused() {
    assert!(matches!(Ctx::from_str("md5-aws-184467440737095516155"), Err(Error::ParseError(_))));
    assert!(matches!(Ctx::from_str("md5-aws-123456789012345678901b"), Err(Error::ParseError(_))));
    let ctx = Ctx::from_str("md5-aws-18446744073709551615b").unwrap();
    assert_eq!(ctx.to_string(), "md5-aws-18446744073709551615b");
}

#[test]
fn file_size_can_be_declared_late() {
    let data = pattern();
    let mut late = Ctx::from_str("md5-aws-3").unwrap();
    late.set_file_size(Some(1024));
    late.update(&data[..10]).unwrap();
    late.set_file_size(Some(1024));
    for c in data[10..].chunks(100) {
        late.update(c).unwrap();
    }
    let d = late.finalize().unwrap();
    assert_eq!(late.digest_to_string(&d), "c097c16fb1a4ac38f30b1ff5f93f2036-342b");
}

#[test]
fn normalizing_keeps_the_cursor() {
    let mut ctx = AWSETagCtx::new(
        StandardCtx::new(Algorithm::MD5),
        PartMode::PartSizes(vec![1, 2, 3, 4, 5]),
        Some(15),
    );
    assert_eq!(ctx.next_part_size().unwrap(), 1);
    assert_eq!(ctx.next_part_size().unwrap(), 2);
    ctx.update_part_sizes();
    assert_eq!(ctx.part_mode(), &PartMode::PartSizes(vec![1, 2, 3, 4, 5]));
    assert_eq!(ctx.next_part_size().unwrap(), 3);

    let mut short = AWSETagCtx::new(
        StandardCtx::new(Algorithm::MD5),
        PartMode::PartSizes(vec![5, 5, 5, 5]),
        Some(20),
    );
    for expected in [5, 5, 5, 5] {
        assert_eq!(short.next_part_size().unwrap(), expected);
    }
    short.update_part_sizes();
    assert_eq!(short.part_mode(), &PartMode::PartSizes(vec![5]));
    assert!(matches!(short.next_part_size(), Err(Error::ParseError(_))));
}
