use rand::Rng;
use rand::RngCore;
use rand::SeedableRng;
use rand_chacha::ChaCha20Rng;
use stark_fri::channel::Channel;
use stark_fri::channel::Commitment;
use stark_fri::channel_gadget::ChannelGadget;
use stark_fri::channel_gadget::ExtractorGadget;
use stark_fri::execute::execute_script;
use stark_fri::fields::CM31;
use stark_fri::fields::M31;
use stark_fri::fields::QM31;
use stark_fri::script::Instr;
use stark_fri::script::Script;

#[test]
fn test_mix_with_commitment() {
    let mut prng = ChaCha20Rng::seed_from_u64(0);

    let channel_script = ChannelGadget::absorb_commitment();
    println!(
        "Channel.mix_with_commitment() = {} bytes",
        channel_script.len()
    );

    let mut a = [0u8; 32];
    a.iter_mut().for_each(|v| *v = prng.gen());

    let mut b = [0u8; 32];
    b.iter_mut().for_each(|v| *v = prng.gen());

    let mut channel = Channel::new(a);
    channel.absorb_commitment(&Commitment(b));

    let c = channel.state;

    let mut script = Script::new();
    script.push_bytes(&a);
    script.push_bytes(&b);
    script.extend(&channel_script);
    script.push_bytes(&c);
    script.push(Instr::Equal);
    let exec_result = execute_script(&script);
    assert!(exec_result.success);
}

#[test]
fn test_mix_with_qm31() {
    let mut prng = ChaCha20Rng::seed_from_u64(0);

    let channel_script = ChannelGadget::absorb_qm31();
    println!("Channel.mix_with_qm31() = {} bytes", channel_script.len());

    let mut a = [0u8; 32];
    a.iter_mut().for_each(|v| *v = prng.gen());

    let b = QM31(
        CM31(M31::reduce(prng.next_u64()), M31::reduce(prng.next_u64())),
        CM31(M31::reduce(prng.next_u64()), M31::reduce(prng.next_u64())),
    );

    let mut channel = Channel::new(a);
    channel.absorb_qm31(&b);

    let c = channel.state;

    let mut script = Script::new();
    script.push_bytes(&a);
    script.push_qm31(&b);
    script.extend(&channel_script);
    script.push_bytes(&c);
    script.push(Instr::Equal);
    let exec_result = execute_script(&script);
    assert!(exec_result.success);
}

#[test]
fn test_draw_element_using_hint() {
    let mut prng = ChaCha20Rng::seed_from_u64(0);

    let channel_script = ChannelGadget::draw_element_using_hint();
    println!(
        "Channel.draw_element_using_hint() = {} bytes",
        channel_script.len()
    );

    let mut a = [0u8; 32];
    a.iter_mut().for_each(|v| *v = prng.gen());

    let mut channel = Channel::new(a);
    let (b, hint) = channel.draw_element();

    let c = channel.state;

    let mut script = Script::new();
    script.extend(&ExtractorGadget::push_hint_qm31(&hint));
    script.push_bytes(&a);
    script.extend(&channel_script);
    script.push_qm31(&b);
    script.push(Instr::Qm31EqualVerify);
    script.push_bytes(&c);
    script.push(Instr::Equal);
    let exec_result = execute_script(&script);
    assert!(exec_result.success);
}

#[test]
fn test_draw_5queries_using_hint() {
    let mut prng = ChaCha20Rng::seed_from_u64(0);

    let channel_script = ChannelGadget::draw_5queries_using_hint(15);
    println!(
        "Channel.draw_5queries_using_hint() = {} bytes",
        channel_script.len()
    );

    let mut a = [0u8; 32];
    a.iter_mut().for_each(|v| *v = prng.gen());

    let mut channel = Channel::new(a);
    let (b, hint) = channel.draw_5queries(15);

    let c = channel.state;

    let mut script = Script::new();
    script.extend(&ExtractorGadget::push_hint_5m31(&hint));
    script.push_bytes(&a);
    script.extend(&channel_script);
    script.push_num(b[4].0);
    script.push(Instr::EqualVerify);
    script.push_num(b[3].0);
    script.push(Instr::EqualVerify);
    script.push_num(b[2].0);
    script.push(Instr::EqualVerify);
    script.push_num(b[1].0);
    script.push(Instr::EqualVerify);
    script.push_num(b[0].0);
    script.push(Instr::EqualVerify);
    script.push_bytes(&c);
    script.push(Instr::Equal);
    let exec_result = execute_script(&script);
    assert!(exec_result.success);
}

#[test]
fn draw_element_with_a_flipped_hint_byte_fails() {
    let seed = [7u8; 32];
    for at in 0..4 {
        let mut channel = Channel::new(seed);
        let (_, mut hint) = channel.draw_element();
        hint.0[at] ^= 1;
        let mut script = Script::new();
        script.extend(&ExtractorGadget::push_hint_qm31(&hint));
        script.push_bytes(&seed);
        script.extend(&ChannelGadget::draw_element_using_hint());
        script.push(Instr::Drop2);
        script.push(Instr::Drop2);
        script.push(Instr::Drop);
        script.push_num(1);
        assert!(!execute_script(&script).success);
    }
}

#[test]
fn draw_leaves_state_and_values_of_the_native_draw() {
    let seed = [9u8; 32];
    let mut channel = Channel::new(seed);
    let (v, hint) = channel.draw_element();
    let mut script = Script::new();
    script.extend(&ExtractorGadget::push_hint_qm31(&hint));
    script.push_bytes(&seed);
    script.extend(&ChannelGadget::draw_element_using_hint());
    let info = execute_script(&script);
    assert!(!info.success);
    assert_eq!(info.final_stack.len(), 5);
    let mut expected = Script::new();
    expected.push_bytes(&channel.state);
    expected.push_qm31(&v);
    let expected = execute_script(&expected);
    assert_eq!(format!("{:?}", info.final_stack), format!("{:?}", expected.final_stack));
}

#[test]
fn absorb_with_a_flipped_seed_byte_gives_another_state() {
    let seed = [3u8; 32];
    let commitment = [5u8; 32];
    let mut channel = Channel::new(seed);
    channel.absorb_commitment(&Commitment(commitment));
    let mut tampered = seed;
    tampered[31] ^= 0x80;
    let mut script = Script::new();
    script.push_bytes(&tampered);
    script.push_bytes(&commitment);
    script.extend(&ChannelGadget::absorb_commitment());
    script.push_bytes(&channel.state);
    script.push(Instr::Equal);
    assert!(!execute_script(&script).success);
}
