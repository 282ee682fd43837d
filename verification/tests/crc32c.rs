use crc32c_hw::crc32c_hw as hw;
use crc32c_hw::crc32c_sw as sw;
use crc32c_hw::compute;
use crc32c_hw::update;
use crc32c_hw::Digest;

use rand::Rng;
use rand::RngCore;

#[test]
fn crc32c_hw_crc() {
    assert_eq!(hw::crc32c_update(0, b"123456789"), 0xe3069283);
}

#[test]
fn crc32c_hw_crc_update() {
    let mut crc = 0;
    crc = hw::crc32c_update(crc, b"123");
    crc = hw::crc32c_update(crc, b"456");
    crc = hw::crc32c_update(crc, b"789");
    assert_eq!(crc, 0xe3069283);
}

#[test]
fn crc32c_sw_crc() {
    assert_eq!(sw::crc32c_update(0, b"123456789"), 0xe3069283);
}

#[test]
fn crc32c_sw_crc_update() {
    let mut crc = 0;
    crc = sw::crc32c_update(crc, b"123");
    crc = sw::crc32c_update(crc, b"456");
    crc = sw::crc32c_update(crc, b"789");
    assert_eq!(crc, 0xe3069283);
}

#[test]
fn compare_hw_and_sw() {
    let mut rng = rand::thread_rng();
    for _ in 0..1000 {
        let mut buf = vec![0u8; rng.gen_range(0..430)];
        rng.fill_bytes(&mut buf);
        let crc = rng.gen();
        assert_eq!(hw::crc32c_update(crc, &buf), sw::crc32c_update(crc, &buf));
    }
    for _ in 0..2000 {
        let mut buf = vec![0u8; rng.gen_range(0..3900)];
        rng.fill_bytes(&mut buf);
        let crc = rng.gen();
        assert_eq!(hw::crc32c_update(crc, &buf), sw::crc32c_update(crc, &buf));
    }
    for _ in 0..3000 {
        let mut buf = vec![0u8; rng.gen_range(0..65000)];
        rng.fill_bytes(&mut buf);
        let crc = rng.gen();
        assert_eq!(hw::crc32c_update(crc, &buf), sw::crc32c_update(crc, &buf));
    }
}

#[test]
fn compute_known_vector() {
    assert_eq!(compute(b"123456789"), 0xe3069283);
}

#[test]
fn known_vectors_32_bytes() {
    // standard iSCSI test vectors
    let zeros = [0u8; 32];
    assert_eq!(compute(&zeros), 0x8a9136aa);
    let ones = [0xffu8; 32];
    assert_eq!(compute(&ones), 0x62a8ab43);
    let mut ascending = [0u8; 32];
    for i in 0..32 {
        ascending[i] = i as u8;
    }
    assert_eq!(compute(&ascending), 0x46dd794e);
}

#[test]
fn update_of_empty_is_identity() {
    for &crc in &[0u32, 1, 0xdeadbeef, 0xffffffff, 0xe3069283] {
        assert_eq!(update(crc, b""), crc);
        assert_eq!(sw::crc32c_update(crc, b""), crc);
        assert_eq!(hw::crc32c_update(crc, b""), crc);
    }
}

#[test]
fn chunked_updates_match_whole_computation() {
    let mut buf = vec![0u8; 1024];
    for i in 0..1024 {
        buf[i] = (i * 31 + 7) as u8;
    }
    let whole = compute(&buf);
    for &split in &[0usize, 1, 3, 4, 7, 8, 15, 16, 17, 100, 511, 512, 1000, 1024] {
        let part = update(0, &buf[..split]);
        assert_eq!(update(part, &buf[split..]), whole);
    }
    let mut rng = rand::thread_rng();
    for _ in 0..100 {
        let split = rng.gen_range(0..=1024);
        let part = update(0, &buf[..split]);
        assert_eq!(update(part, &buf[split..]), whole);
    }
}

#[test]
fn engines_agree_at_every_length_threshold() {
    let lengths = [
        0usize, 1, 2, 3, 4, 5, 7, 8, 9, 15, 16, 17, 31, 32, 33, 335, 336, 337, 1007, 1008, 1009,
        1359, 1360, 1361, 4079, 4080, 4081, 5440, 16319, 16320, 16321, 32640, 65536, 65537,
    ];
    for &len in &lengths {
        let mut buf = vec![0u8; len];
        for i in 0..len {
            buf[i] = (i * 131 + 13) as u8;
        }
        let s = sw::crc32c_update(0x12345678, &buf);
        let h = hw::crc32c_update(0x12345678, &buf);
        assert_eq!(s, h);
        // byte-at-a-time chunking agrees with the whole computation
        if len <= 40 {
            let mut crc = 0;
            for i in 0..len {
                crc = update(crc, &buf[i..i + 1]);
            }
            assert_eq!(crc, compute(&buf));
        }
    }
}

#[test]
fn repeated_calls_are_deterministic() {
    let mut buf = vec![0u8; 4096];
    for i in 0..4096 {
        buf[i] = (i * 7 + 3) as u8;
    }
    let first = update(0xabcdef01, &buf);
    for _ in 0..3 {
        assert_eq!(update(0xabcdef01, &buf), first);
    }
}

#[test]
fn digest_accumulates_writes() {
    let mut d = Digest::new(0);
    d.write(b"123");
    d.write(b"456");
    d.write(b"789");
    assert_eq!(d.finish(), 0xe3069283);
    assert_eq!(Digest::default(), Digest::new(0));
}
