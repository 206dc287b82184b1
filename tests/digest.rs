use cloud_checksum::ctx::Ctx;
use cloud_checksum::digest::{Algorithm, StandardCtx};

fn simple(spec: &str, data: &[u8]) -> String {
    let mut ctx = Ctx::from_str(spec).unwrap();
    ctx.update(data).unwrap();
    let d = ctx.finalize().unwrap();
    ctx.digest_to_string(&d)
}

#[test]
fn known_digests() {
    assert_eq!(simple("md5", b"abc"), "900150983cd24fb0d6963f7d28e17f72");
    assert_eq!(simple("sha1", b"abc"), "a9993e364706816aba3e25717850c26c9cd0d89d");
    assert_eq!(
        simple("sha256", b"abc"),
        "ba7816bf8f01cfea414140de5dae2223b00361a396177a9cb410ff61f20015ad"
    );
    assert_eq!(simple("crc32", b"123456789"), "cbf43926");
    assert_eq!(simple("crc32c", b"123456789"), "e3069283");
    assert_eq!(simple("md5", b""), "d41d8cd98f00b204e9800998ecf8427e");
}

#[test]
fn finalize_starts_afresh() {
    let mut ctx = StandardCtx::new(Algorithm::MD5);
    ctx.update(b"abc");
    let first = ctx.finalize();
    ctx.update(b"abc");
    let second = ctx.finalize();
    assert_eq!(first, second);
    assert_eq!(ctx.digest_to_string(&first), "900150983cd24fb0d6963f7d28e17f72");
}

#[test]
fn simple_md5_of_zero_bytes() {
    let mut ctx = Ctx::from_str("md5").unwrap();
    let chunk = vec![0u8; 1 << 20];
    for _ in 0..16 {
        ctx.update(&chunk).unwrap();
    }
    let d = ctx.finalize().unwrap();
    assert_eq!(ctx.digest_to_string(&d), "2c7ab85a893283e98c931e9511add182");
}

#[test]
fn composite_md5_of_zero_bytes() {
    let mut ctx = Ctx::from_str("md5-aws-5mib").unwrap();
    let chunk = vec![0u8; 1 << 20];
    for _ in 0..16 {
        ctx.update(&chunk).unwrap();
    }
    let d = ctx.finalize().unwrap();
    assert_eq!(ctx.digest_to_string(&d), "eafa449afe224ad0b7f8f5bab4145d13-5242880b");
    assert_eq!(ctx.part_checksums().unwrap().len(), 4);
}
