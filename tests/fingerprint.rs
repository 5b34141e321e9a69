use ducky::{clamp_quick_bytes, Fingerprinter};

fn hex(b: &[u8]) -> String {
    b.iter().map(|x| format!("{:02x}", x)).collect()
}

#[test]
fn empty_content_has_the_blake3_empty_hash() {
    let fp = Fingerprinter::full();
    let d = fp.finish();
    assert_eq!(d.len(), 32);
    assert_eq!(hex(&d), "af1349b9f5f9a1a6a0404dea36dcc9499bcb25c9adc112b7cc9a93cae41f3262");
}

#[test]
fn fingerprint_is_not_the_content() {
    let mut fp = Fingerprinter::full();
    fp.absorb(b"abc");
    let d = fp.finish();
    assert_eq!(d.len(), 32);
    assert_ne!(d, b"abc".to_vec());
}

#[test]
fn chunking_does_not_change_the_fingerprint() {
    let data: Vec<u8> = (0..5000u32).map(|i| (i % 251) as u8).collect();
    let mut one = Fingerprinter::full();
    one.absorb(&data);
    let mut many = Fingerprinter::full();
    for c in data.chunks(333) {
        many.absorb(c);
    }
    assert_eq!(one.finish(), many.finish());
}

#[test]
fn different_content_different_fingerprint() {
    let mut a = Fingerprinter::full();
    a.absorb(b"hello");
    let mut b = Fingerprinter::full();
    b.absorb(b"hellp");
    assert_ne!(a.finish(), b.finish());
}

#[test]
fn quick_fingerprint_stops_at_its_limit() {
    let fp = Fingerprinter::quick(2048);
    assert_eq!(fp.wanted(4096), 2048);
    assert_eq!(fp.wanted(100), 100);
    let mut fp = fp;
    fp.absorb(&[0u8; 2048]);
    assert_eq!(fp.wanted(4096), 0);
}

#[test]
fn quick_fingerprint_equals_full_fingerprint_of_the_prefix() {
    let data = vec![5u8; 3000];
    let mut quick = Fingerprinter::quick(1024);
    let n = quick.wanted(data.len());
    assert_eq!(n, 1024);
    quick.absorb(&data[..n]);
    let mut full = Fingerprinter::full();
    full.absorb(&data[..1024]);
    assert_eq!(quick.finish(), full.finish());
}

#[test]
fn quick_limit_is_clamped() {
    assert_eq!(clamp_quick_bytes(0), 1024);
    assert_eq!(clamp_quick_bytes(1023), 1024);
    assert_eq!(clamp_quick_bytes(1024), 1024);
    assert_eq!(clamp_quick_bytes(65536), 65536);
    assert_eq!(clamp_quick_bytes(1 << 30), 1 << 30);
    assert_eq!(clamp_quick_bytes((1 << 30) + 1), 1 << 30);
    assert_eq!(clamp_quick_bytes(u64::MAX), 1 << 30);
    assert_eq!(Fingerprinter::quick(10).wanted(usize::MAX), 1024);
}
