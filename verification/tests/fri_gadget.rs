use rand::Rng;
use rand::RngCore;
use rand::SeedableRng;
use rand_chacha::ChaCha20Rng;
use stark_fri::channel::Channel;
use stark_fri::channel::Commitment;
use stark_fri::execute::execute_script;
use stark_fri::fields::CM31;
use stark_fri::fields::M31;
use stark_fri::fields::QM31;
use stark_fri::fri::FRIGadget;
use stark_fri::fri_proof::FriError;
use stark_fri::fri_proof::FriProof;
use stark_fri::fri_proof::N_QUERIES;
use stark_fri::hash::hash;
use stark_fri::hash::hash_pair;
use stark_fri::merkle::MerkleTreeProof;
use stark_fri::merkle::TwiddleMerkleTreeProof;
use stark_fri::script::Instr;
use stark_fri::script::Script;

fn random_qm31(prng: &mut ChaCha20Rng) -> QM31 {
    QM31(
        CM31(M31::reduce(prng.next_u64()), M31::reduce(prng.next_u64())),
        CM31(M31::reduce(prng.next_u64()), M31::reduce(prng.next_u64())),
    )
}

fn levels_of(leaves: Vec<[u8; 32]>) -> Vec<Vec<[u8; 32]>> {
    let mut levels = vec![leaves];
    while levels[levels.len() - 1].len() > 1 {
        let below = &levels[levels.len() - 1];
        let mut above = Vec::new();
        for pair in below.chunks(2) {
            above.push(hash_pair(&pair[0], &pair[1]));
        }
        levels.push(above);
    }
    levels
}

fn root_of(levels: &Vec<Vec<[u8; 32]>>) -> [u8; 32] {
    levels[levels.len() - 1][0]
}

fn path_of(levels: &Vec<Vec<[u8; 32]>>, index: usize) -> Vec<[u8; 32]> {
    let mut at = index;
    let mut siblings = Vec::new();
    for level in &levels[..levels.len() - 1] {
        siblings.push(level[at ^ 1]);
        at >>= 1;
    }
    siblings
}

fn twiddle_leaf_hash(pair: &[M31; 2]) -> [u8; 32] {
    let mut bytes = pair[0].0.to_le_bytes().to_vec();
    bytes.extend_from_slice(&pair[1].0.to_le_bytes());
    hash(&bytes)
}

struct Synthetic {
    proof: FriProof,
    layers: Vec<Vec<QM31>>,
    twiddles: Vec<[M31; 2]>,
    twiddle_root: [u8; 32],
    challenges: Vec<QM31>,
    queries: [M31; 5],
    final_state: [u8; 32],
}

fn synthetic(channel_init_state: [u8; 32], logn: usize, n_layers: usize) -> Synthetic {
    let mut prng = ChaCha20Rng::seed_from_u64(1);
    let mut layers = Vec::new();
    let mut trees = Vec::new();
    let mut commitments = Vec::new();
    for i in 0..n_layers {
        let layer: Vec<QM31> = (0..1usize << (logn - i)).map(|_| random_qm31(&mut prng)).collect();
        let tree = levels_of(layer.iter().map(|v| hash(&v.pack())).collect());
        commitments.push(Commitment(root_of(&tree)));
        layers.push(layer);
        trees.push(tree);
    }
    let last_layer: Vec<QM31> =
        (0..1usize << (logn - n_layers)).map(|_| random_qm31(&mut prng)).collect();

    let twiddles: Vec<[M31; 2]> = (0..1usize << (logn - 1))
        .map(|_| [M31::reduce(prng.next_u64()), M31::reduce(prng.next_u64())])
        .collect();
    let twiddle_tree = levels_of(twiddles.iter().map(twiddle_leaf_hash).collect());

    let mut channel = Channel::new(channel_init_state);
    let mut challenges = Vec::new();
    for c in commitments.iter() {
        channel.absorb_commitment(c);
        challenges.push(channel.draw_element().0);
    }
    last_layer.iter().for_each(|v| channel.absorb_qm31(v));
    let queries = channel.draw_5queries(logn).0;

    let mut merkle_proofs = Vec::new();
    let mut twiddle_merkle_proofs = Vec::new();
    for query in queries.iter() {
        let q = query.0 as usize;
        let mut openings = Vec::new();
        for i in 0..n_layers {
            let index = q % (1 << (logn - i));
            openings.push(MerkleTreeProof {
                leaf: layers[i][index],
                siblings: path_of(&trees[i], index),
            });
        }
        merkle_proofs.push(openings);
        twiddle_merkle_proofs.push(TwiddleMerkleTreeProof {
            leaf: twiddles[q >> 1],
            siblings: path_of(&twiddle_tree, q >> 1),
        });
    }
    Synthetic {
        proof: FriProof { commitments, last_layer, merkle_proofs, twiddle_merkle_proofs },
        layers,
        twiddles,
        twiddle_root: root_of(&twiddle_tree),
        challenges,
        queries,
        final_state: channel.state,
    }
}

fn fixed_seed() -> [u8; 32] {
    let mut prng = ChaCha20Rng::seed_from_u64(0);
    let mut channel_init_state = [0u8; 32];
    channel_init_state.iter_mut().for_each(|v| *v = prng.gen());
    channel_init_state
}

fn count(script: &Script, wanted: &str) -> usize {
    script.instrs.iter().filter(|i| format!("{:?}", i).starts_with(wanted)).count()
}

#[test]
fn test_fiat_shamir() {
    let channel_init_state = fixed_seed();

    let mut channel = Channel::new(channel_init_state.clone());
    let logn = 5;

    let proof = synthetic(channel_init_state, logn, logn - 1).proof;

    let expected = {
        let mut channel = Channel::new(channel_init_state);
        let mut expected_1 = vec![];

        for c in proof.commitments.iter() {
            channel.absorb_commitment(c);
            let res = channel.draw_element();
            expected_1.push(res.0);
        }
        proof.last_layer.iter().for_each(|v| channel.absorb_qm31(v));

        let res = channel.draw_5queries(logn);

        let expected_2 = res.0;

        (expected_1, expected_2)
    };

    let mut script = Script::new();
    script.extend(&FRIGadget::push_fiat_shamir_input(&mut channel, logn, &proof).unwrap());
    script.extend(&FRIGadget::check_fiat_shamir(&channel_init_state, logn, logn - 1).unwrap());
    for elem in expected.0.iter() {
        script.push_qm31(elem);
        script.push(Instr::Qm31EqualVerify);
    }
    for elem in expected.1.iter().rev() {
        script.push_num(elem.0);
        script.push(Instr::EqualVerify);
    }
    script.push_num(1);

    println!("FRI.Fiat-Shamir = {} bytes", script.len());

    let exec_result = execute_script(&script);
    assert!(exec_result.success);
}

#[test]
fn test_twiddle_merkle_tree() {
    let logn = 5;

    let channel_init_state = fixed_seed();

    let data = synthetic(channel_init_state, logn, logn - 1);
    let proof = &data.proof;

    let queries = {
        let mut channel = Channel::new(channel_init_state);

        for c in proof.commitments.iter() {
            channel.absorb_commitment(c);
            let _ = channel.draw_element();
        }

        proof.last_layer.iter().for_each(|v| channel.absorb_qm31(v));
        channel.draw_5queries(logn).0
    };

    let expected = {
        let mut expected = vec![];

        for query in queries.iter() {
            expected.extend_from_slice(&data.twiddles[(query.0 >> 1) as usize]);
        }
        expected
    };

    let mut script = Script::new();
    script.extend(&FRIGadget::push_twiddle_merkle_tree_proof(proof).unwrap());
    for query in queries.iter() {
        script.push_num(query.0 >> 1);
    }
    script.extend(&FRIGadget::check_twiddle_merkle_tree_proof(logn, data.twiddle_root).unwrap());
    for elem in expected.iter().rev() {
        script.push_num(elem.0);
        script.push(Instr::EqualVerify);
    }
    script.push_num(1);

    println!("FRI.Twiddle-Tree = {} bytes", script.len());

    let exec_result = execute_script(&script);
    assert!(exec_result.success);
}

#[test]
fn test_single_query_merkle_tree() {
    let logn = 5;

    let channel_init_state = fixed_seed();

    let proof = synthetic(channel_init_state, logn, logn - 1).proof;

    let queries = {
        let mut channel = Channel::new(channel_init_state);

        for c in proof.commitments.iter() {
            channel.absorb_commitment(c);
            let _ = channel.draw_element();
        }

        proof.last_layer.iter().for_each(|v| channel.absorb_qm31(v));
        channel.draw_5queries(logn).0
    };

    let expected = {
        let mut expected = vec![];

        for query in proof.merkle_proofs[0].iter().rev() {
            expected.push(query.leaf);
        }
        expected
    };

    let mut script = Script::new();
    script.extend(&FRIGadget::push_single_query_merkle_tree_proof(0, &proof).unwrap());
    for c in proof.commitments.iter() {
        script.push_bytes(&c.0);
    }
    script.push_num(queries[0].0);
    script.extend(&FRIGadget::check_single_query_merkle_tree_proof(logn).unwrap());
    for elem in expected.iter() {
        script.push_qm31(elem);
        script.push(Instr::Qm31EqualVerify);
    }
    script.push_num(1);

    println!("FRI.Single-Query-Tree = {} bytes", script.len());

    let exec_result = execute_script(&script);
    assert!(exec_result.success);
}

#[test]
fn replay_exposes_the_challenges_and_queries_of_the_native_run() {
    let seed = fixed_seed();
    let logn = 5;
    let data = synthetic(seed, logn, logn - 1);
    let mut channel = Channel::new(seed);
    let mut script = Script::new();
    script.extend(&FRIGadget::push_fiat_shamir_input(&mut channel, logn, &data.proof).unwrap());
    script.extend(&FRIGadget::check_fiat_shamir(&seed, logn, logn - 1).unwrap());
    let info = execute_script(&script);
    assert_eq!(channel.state, data.final_state);
    assert_eq!(data.challenges.len(), 4);
    assert_eq!(info.final_stack.len(), 5 + 4 * 4);

    let mut expected = Script::new();
    for q in data.queries.iter() {
        expected.push_num(q.0);
    }
    for c in data.challenges.iter().rev() {
        expected.push_qm31(c);
    }
    let expected = execute_script(&expected);
    assert_eq!(format!("{:?}", info.final_stack), format!("{:?}", expected.final_stack));
}

#[test]
fn replay_counts_absorbs_and_draws() {
    for logn in 4..20usize {
        let n_layers = logn - 1;
        let script = FRIGadget::check_fiat_shamir(&[0u8; 32], logn, n_layers).unwrap();
        assert_eq!(count(&script, "CommitQm31"), 1 << (logn - n_layers));
        assert_eq!(count(&script, "CommitQm31"), 2);
        assert_eq!(count(&script, "UnpackQm31"), n_layers);
        assert_eq!(count(&script, "Unpack5M31"), 1);
        assert_eq!(count(&script, "TrimM31"), 5);
        assert_eq!(count(&script, "Sha256"), 2 * n_layers + 2 + 1);
    }
    let script = FRIGadget::check_fiat_shamir(&[0u8; 32], 6, 2).unwrap();
    assert_eq!(count(&script, "CommitQm31"), 16);
    assert_eq!(script.len(), 1 + 2 * 9 + 16 * 11 + 18 + 3 + 2);
}

#[test]
fn replay_consumes_its_whole_witness() {
    for logn in 4..9usize {
        for n_layers in [0, 1, logn - 1, logn] {
            let seed = [logn as u8; 32];
            let data = synthetic(seed, logn, n_layers);
            let mut channel = Channel::new(seed);
            let mut script = Script::new();
            script.extend(
                &FRIGadget::push_fiat_shamir_input(&mut channel, logn, &data.proof).unwrap(),
            );
            script.extend(&FRIGadget::check_fiat_shamir(&seed, logn, n_layers).unwrap());
            let info = execute_script(&script);
            assert_eq!(info.final_stack.len(), 5 + 4 * n_layers);
            assert_eq!(channel.state, data.final_state);

            let mut expected = Script::new();
            for q in data.queries.iter() {
                expected.push_num(q.0);
            }
            for c in data.challenges.iter().rev() {
                expected.push_qm31(c);
            }
            let expected = execute_script(&expected);
            assert_eq!(
                format!("{:?}", info.final_stack),
                format!("{:?}", expected.final_stack)
            );
        }
    }
}

#[test]
fn replay_of_a_tampered_witness_fails() {
    let seed = fixed_seed();
    let logn = 5;
    let data = synthetic(seed, logn, logn - 1);
    let witness =
        FRIGadget::push_fiat_shamir_input(&mut Channel::new(seed), logn, &data.proof).unwrap();
    let check = |witness: &Script, seed: &[u8; 32]| {
        let mut script = Script::new();
        script.extend(witness);
        script.extend(&FRIGadget::check_fiat_shamir(seed, logn, logn - 1).unwrap());
        for elem in data.challenges.iter() {
            script.push_qm31(elem);
            script.push(Instr::Qm31EqualVerify);
        }
        for elem in data.queries.iter().rev() {
            script.push_num(elem.0);
            script.push(Instr::EqualVerify);
        }
        script.push_num(1);
        execute_script(&script).success
    };
    assert!(check(&witness, &seed));

    let mut other_seed = seed;
    other_seed[0] ^= 1;
    assert!(!check(&witness, &other_seed));

    for at in 0..witness.len() {
        let mut tampered = Script::new();
        tampered.extend(&witness);
        match &mut tampered.instrs[at] {
            Instr::PushBytes(b) => b[0] ^= 1,
            Instr::PushNum(v) => *v ^= 1,
            _ => unreachable!(),
        }
        assert!(!check(&tampered, &seed), "tampered item {} went through", at);
    }
}

#[test]
fn layer_leaves_are_the_evaluations_at_the_reduced_index() {
    let seed = fixed_seed();
    let logn = 5;
    let data = synthetic(seed, logn, logn - 1);
    for (k, query) in data.queries.iter().enumerate() {
        let mut script = Script::new();
        script.extend(&FRIGadget::push_single_query_merkle_tree_proof(k, &data.proof).unwrap());
        for c in data.proof.commitments.iter() {
            script.push_bytes(&c.0);
        }
        script.push_num(query.0);
        script.extend(&FRIGadget::check_single_query_merkle_tree_proof(logn).unwrap());
        let info = execute_script(&script);
        assert_eq!(info.final_stack.len(), 4 * (logn - 1));

        let mut expected = Script::new();
        for i in 0..logn - 1 {
            expected.push_qm31(&data.layers[i][query.0 as usize % (1 << (5 - i))]);
        }
        let expected = execute_script(&expected);
        assert_eq!(format!("{:?}", info.final_stack), format!("{:?}", expected.final_stack));
    }
}

#[test]
fn twiddle_leaves_are_the_table_entries_at_half_the_query() {
    let seed = fixed_seed();
    let logn = 5;
    let data = synthetic(seed, logn, logn - 1);
    let mut script = Script::new();
    script.extend(&FRIGadget::push_twiddle_merkle_tree_proof(&data.proof).unwrap());
    for query in data.queries.iter() {
        script.push_num(query.0 >> 1);
    }
    script.extend(&FRIGadget::check_twiddle_merkle_tree_proof(logn, data.twiddle_root).unwrap());
    let info = execute_script(&script);
    assert_eq!(info.final_stack.len(), 2 * N_QUERIES);
    let mut expected = Script::new();
    for query in data.queries.iter() {
        let pair = data.twiddles[(query.0 >> 1) as usize];
        expected.push_num(pair[0].0);
        expected.push_num(pair[1].0);
    }
    let expected = execute_script(&expected);
    assert_eq!(format!("{:?}", info.final_stack), format!("{:?}", expected.final_stack));
}

#[test]
fn openings_with_a_flipped_byte_fail() {
    let seed = fixed_seed();
    let logn = 5;
    let data = synthetic(seed, logn, logn - 1);

    let single = |proof: &FriProof, query: u32| {
        let mut script = Script::new();
        script.extend(&FRIGadget::push_single_query_merkle_tree_proof(0, proof).unwrap());
        for c in proof.commitments.iter() {
            script.push_bytes(&c.0);
        }
        script.push_num(query);
        script.extend(&FRIGadget::check_single_query_merkle_tree_proof(logn).unwrap());
        for _ in 0..2 * (logn - 1) {
            script.push(Instr::Drop2);
        }
        script.push_num(1);
        execute_script(&script).success
    };
    assert!(single(&data.proof, data.queries[0].0));
    assert!(!single(&data.proof, data.queries[0].0 ^ 1));

    let mut proof = synthetic(seed, logn, logn - 1).proof;
    proof.merkle_proofs[0][2].siblings[1][7] ^= 0x10;
    assert!(!single(&proof, data.queries[0].0));

    let mut proof = synthetic(seed, logn, logn - 1).proof;
    proof.merkle_proofs[0][3].leaf = QM31(CM31(M31(1), M31(2)), CM31(M31(3), M31(4)));
    assert!(!single(&proof, data.queries[0].0));

    let mut proof = synthetic(seed, logn, logn - 1).proof;
    proof.commitments[1].0[0] ^= 1;
    assert!(!single(&proof, data.queries[0].0));

    let twiddle = |proof: &FriProof, root: [u8; 32]| {
        let mut script = Script::new();
        script.extend(&FRIGadget::push_twiddle_merkle_tree_proof(proof).unwrap());
        for query in data.queries.iter() {
            script.push_num(query.0 >> 1);
        }
        script.extend(&FRIGadget::check_twiddle_merkle_tree_proof(logn, root).unwrap());
        for _ in 0..N_QUERIES {
            script.push(Instr::Drop2);
        }
        script.push_num(1);
        execute_script(&script).success
    };
    assert!(twiddle(&data.proof, data.twiddle_root));
    let mut root = data.twiddle_root;
    root[31] ^= 1;
    assert!(!twiddle(&data.proof, root));
    let mut proof = synthetic(seed, logn, logn - 1).proof;
    proof.twiddle_merkle_proofs[4].siblings[0][0] ^= 1;
    assert!(!twiddle(&proof, data.twiddle_root));
}

#[test]
fn proofs_of_the_wrong_shape_are_refused() {
    let seed = fixed_seed();
    let logn = 5;
    let valid = || synthetic(seed, logn, logn - 1).proof;
    assert_eq!(valid().validate(logn), Ok(()));
    assert_eq!(valid().validate(32), Err(FriError::DomainTooLarge));
    assert_eq!(valid().validate(3), Err(FriError::TooManyLayers));
    assert_eq!(valid().validate(6), Err(FriError::LastLayerSize));

    let mut proof = valid();
    proof.last_layer.pop();
    assert_eq!(proof.validate(logn), Err(FriError::LastLayerSize));

    let mut proof = valid();
    proof.merkle_proofs.pop();
    assert_eq!(proof.validate(logn), Err(FriError::QueryCount));

    let mut proof = valid();
    proof.twiddle_merkle_proofs.pop();
    assert_eq!(proof.validate(logn), Err(FriError::QueryCount));

    let mut proof = valid();
    proof.merkle_proofs[3].pop();
    assert_eq!(proof.validate(logn), Err(FriError::PathLength));

    let mut proof = valid();
    proof.merkle_proofs[4][1].siblings.pop();
    assert_eq!(proof.validate(logn), Err(FriError::PathLength));

    let mut proof = valid();
    proof.twiddle_merkle_proofs[2].siblings.push([0u8; 32]);
    assert_eq!(proof.validate(logn), Err(FriError::PathLength));

    let mut proof = valid();
    proof.last_layer.pop();
    let mut channel = Channel::new(seed);
    let refused = FRIGadget::push_fiat_shamir_input(&mut channel, logn, &proof);
    assert_eq!(refused.err(), Some(FriError::LastLayerSize));
    assert_eq!(channel.state, seed);
}

#[test]
fn parameters_without_a_program_are_refused() {
    let seed = [0u8; 32];
    assert_eq!(
        FRIGadget::check_fiat_shamir(&seed, 32, 4).err(),
        Some(FriError::DomainTooLarge)
    );
    assert_eq!(
        FRIGadget::check_fiat_shamir(&seed, 4, 5).err(),
        Some(FriError::TooManyLayers)
    );
    assert!(FRIGadget::check_fiat_shamir(&seed, 31, 31).is_ok());
    assert_eq!(
        FRIGadget::check_twiddle_merkle_tree_proof(0, seed).err(),
        Some(FriError::DomainTooSmall)
    );
    assert_eq!(
        FRIGadget::check_single_query_merkle_tree_proof(32).err(),
        Some(FriError::DomainTooLarge)
    );
    let proof = synthetic(seed, 5, 4).proof;
    assert_eq!(
        FRIGadget::push_single_query_merkle_tree_proof(5, &proof).err(),
        Some(FriError::QueryIndex)
    );
    assert!(FRIGadget::push_single_query_merkle_tree_proof(4, &proof).is_ok());
    assert!(FRIGadget::push_twiddle_merkle_tree_proof(&proof).is_ok());

    let mut fewer = synthetic(seed, 5, 4).proof;
    fewer.twiddle_merkle_proofs.pop();
    assert_eq!(
        FRIGadget::push_twiddle_merkle_tree_proof(&fewer).err(),
        Some(FriError::QueryCount)
    );
    assert!(FRIGadget::push_single_query_merkle_tree_proof(4, &fewer).is_ok());

    let mut none = synthetic(seed, 5, 4).proof;
    none.twiddle_merkle_proofs.clear();
    assert_eq!(
        FRIGadget::push_twiddle_merkle_tree_proof(&none).err(),
        Some(FriError::QueryCount)
    );

    let mut more = synthetic(seed, 5, 4).proof;
    let extra = synthetic(seed, 5, 4).proof;
    more.merkle_proofs.extend(extra.merkle_proofs);
    more.twiddle_merkle_proofs.extend(extra.twiddle_merkle_proofs);
    assert_eq!(
        FRIGadget::push_single_query_merkle_tree_proof(6, &more).err(),
        Some(FriError::QueryCount)
    );
    assert_eq!(
        FRIGadget::push_single_query_merkle_tree_proof(0, &more).err(),
        Some(FriError::QueryCount)
    );
    assert_eq!(
        FRIGadget::push_twiddle_merkle_tree_proof(&more).err(),
        Some(FriError::QueryCount)
    );

    let mut short = synthetic(seed, 5, 4).proof;
    short.merkle_proofs[2].pop();
    assert_eq!(
        FRIGadget::push_single_query_merkle_tree_proof(2, &short).err(),
        Some(FriError::PathLength)
    );
    assert!(FRIGadget::push_single_query_merkle_tree_proof(1, &short).is_ok());
    assert_eq!(
        FRIGadget::push_single_query_merkle_tree_proof(7, &short).err(),
        Some(FriError::QueryIndex)
    );
}
