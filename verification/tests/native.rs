use stark_fri::channel::Channel;
use stark_fri::channel::Commitment;
use stark_fri::extract::trim_m31;
use stark_fri::extract::Extraction5M31;
use stark_fri::extract::ExtractionQM31;
use stark_fri::extract::Extractor;
use stark_fri::fields::CM31;
use stark_fri::fields::M31;
use stark_fri::fields::P;
use stark_fri::fields::QM31;
use stark_fri::hash::hash;

fn digest_with_words(words: [u32; 8]) -> [u8; 32] {
    let mut d = [0u8; 32];
    for (k, w) in words.iter().enumerate() {
        d[4 * k..4 * k + 4].copy_from_slice(&w.to_le_bytes());
    }
    d
}

#[test]
fn reduce_gives_the_canonical_representative() {
    assert_eq!(M31::reduce(0), M31(0));
    assert_eq!(M31::reduce(P as u64 - 1), M31(P - 1));
    assert_eq!(M31::reduce(P as u64), M31(0));
    assert_eq!(M31::reduce(P as u64 + 5), M31(5));
    assert_eq!(M31::reduce(u64::MAX), M31((u64::MAX % 2147483647) as u32));
}

#[test]
fn pack_writes_each_limb_little_endian() {
    let v = QM31(CM31(M31(1), M31(0x0102)), CM31(M31(0x7ffffffe), M31(0x01020304)));
    assert_eq!(
        v.pack(),
        vec![1, 0, 0, 0, 2, 1, 0, 0, 0xfe, 0xff, 0xff, 0x7f, 4, 3, 2, 1]
    );
    assert_eq!(QM31::from_limbs(1, 0x0102, 0x7ffffffe, 0x01020304), v);
}

#[test]
fn extraction_reduces_each_word_and_keeps_the_quotient() {
    let d = digest_with_words([5, P, P + 7, u32::MAX, 2 * P, 0, 0, 0]);
    let (v, hint) = Extractor::extract_qm31(&d);
    assert_eq!(v, QM31(CM31(M31(5), M31(0)), CM31(M31(7), M31(1))));
    assert_eq!(hint.0, [0, 1, 1, 2]);
    let (w, hint5) = Extractor::extract_5m31(&d);
    assert_eq!(w, [M31(5), M31(0), M31(7), M31(1), M31(0)]);
    assert_eq!(hint5.0, [0, 1, 1, 2, 2]);
}

#[test]
fn unpack_accepts_the_native_hint_only() {
    let d = digest_with_words([5, P, P + 7, u32::MAX, 2 * P, 9, 9, 9]);
    let (v, hint) = Extractor::extract_qm31(&d);
    assert_eq!(Extractor::unpack_qm31(&d, &hint), Some(v));
    for at in 0..4 {
        for q in 0..=3u8 {
            let mut other = hint;
            other.0[at] = q;
            let expected = if q == hint.0[at] { Some(v) } else { None };
            assert_eq!(Extractor::unpack_qm31(&d, &other), expected);
        }
    }
    let (w, hint5) = Extractor::extract_5m31(&d);
    assert_eq!(Extractor::unpack_5m31(&d, &hint5), Some(w));
    assert_eq!(Extractor::unpack_5m31(&d, &Extraction5M31([0, 1, 1, 2, 1])), None);
    assert_eq!(Extractor::unpack_qm31(&d, &ExtractionQM31([0, 1, 1, 3])), None);
}

#[test]
fn trim_keeps_the_low_bits() {
    assert_eq!(trim_m31(0b1011011, 4), 0b1011);
    assert_eq!(trim_m31(0x7fffffff, 15), 0x7fff);
    assert_eq!(trim_m31(12345, 0), 0);
    assert_eq!(trim_m31(12345, 31), 12345);
    assert_eq!(trim_m31(u32::MAX, 32), u32::MAX);
    assert_eq!(trim_m31(u32::MAX, 200), u32::MAX);
}

#[test]
fn absorb_hashes_state_then_input() {
    let seed = [1u8; 32];
    let c = [2u8; 32];
    let mut channel = Channel::new(seed);
    assert_eq!(channel.state, seed);
    channel.absorb_commitment(&Commitment(c));
    let mut data = seed.to_vec();
    data.extend_from_slice(&c);
    assert_eq!(channel.state, hash(&data));

    let v = QM31(CM31(M31(1), M31(2)), CM31(M31(3), M31(4)));
    let before = channel.state;
    channel.absorb_qm31(&v);
    let mut data = before.to_vec();
    data.extend_from_slice(&[1, 0, 0, 0, 2, 0, 0, 0, 3, 0, 0, 0, 4, 0, 0, 0]);
    assert_eq!(channel.state, hash(&data));
}

#[test]
fn draw_ratchets_the_state_with_the_digest_it_reads() {
    let seed = [1u8; 32];
    let mut channel = Channel::new(seed);
    let (v, hint) = channel.draw_element();
    let mut data = seed.to_vec();
    data.push(0);
    let d = hash(&data);
    assert_eq!(channel.state, d);
    let (expected, expected_hint) = Extractor::extract_qm31(&d);
    assert_eq!(v, expected);
    assert_eq!(hint.0, expected_hint.0);

    let before = channel.state;
    let (q, hint) = channel.draw_5queries(10);
    let mut data = before.to_vec();
    data.push(0);
    let d = hash(&data);
    assert_eq!(channel.state, d);
    let (raw, raw_hint) = Extractor::extract_5m31(&d);
    for k in 0..5 {
        assert_eq!(q[k].0, raw[k].0 % 1024);
    }
    assert_eq!(hint.0, raw_hint.0);
}

#[test]
fn two_runs_from_one_seed_agree() {
    let run = || {
        let mut channel = Channel::new([42u8; 32]);
        channel.absorb_commitment(&Commitment([1u8; 32]));
        let a = channel.draw_element();
        channel.absorb_qm31(&a.0);
        let b = channel.draw_5queries(7);
        (channel.state, a.0, a.1 .0, b.0, b.1 .0)
    };
    assert_eq!(run(), run());
}
