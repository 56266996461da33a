use stark_fri::execute::execute_script;
use stark_fri::execute::Machine;
use stark_fri::hash::hash;
use stark_fri::hash::hash_pair;
use stark_fri::machine::Item;
use stark_fri::script::Instr;
use stark_fri::script::Script;

fn program(instrs: Vec<Instr>) -> Script {
    let mut script = Script::new();
    for i in instrs {
        script.push(i);
    }
    script
}

fn nums_after(instrs: Vec<Instr>) -> Option<(Vec<u32>, Vec<u32>)> {
    let mut machine = Machine::new();
    if !machine.run(&program(instrs)) {
        return None;
    }
    let read = |items: &Vec<Item>| {
        items
            .iter()
            .map(|i| match i {
                Item::Num(v) => *v,
                Item::Bytes(_) => u32::MAX,
            })
            .collect::<Vec<u32>>()
    };
    Some((read(&machine.stack), read(&machine.alt)))
}

fn push(numbers: &[u32]) -> Vec<Instr> {
    numbers.iter().map(|v| Instr::PushNum(*v)).collect()
}

fn then(mut first: Vec<Instr>, second: Vec<Instr>) -> Vec<Instr> {
    first.extend(second);
    first
}

#[test]
fn stack_shuffling() {
    assert_eq!(nums_after(then(push(&[1, 2]), vec![Instr::Dup])), Some((vec![1, 2, 2], vec![])));
    assert_eq!(nums_after(then(push(&[1, 2]), vec![Instr::Swap])), Some((vec![2, 1], vec![])));
    assert_eq!(nums_after(then(push(&[1, 2]), vec![Instr::Drop])), Some((vec![1], vec![])));
    assert_eq!(nums_after(then(push(&[1, 2, 3]), vec![Instr::Drop2])), Some((vec![1], vec![])));
    assert_eq!(
        nums_after(then(push(&[10, 11, 12, 13, 2]), vec![Instr::Roll])),
        Some((vec![10, 12, 13, 11], vec![]))
    );
    assert_eq!(
        nums_after(then(push(&[10, 11, 0]), vec![Instr::Roll])),
        Some((vec![10, 11], vec![]))
    );
    assert_eq!(
        nums_after(then(push(&[1, 2]), vec![Instr::ToAltStack])),
        Some((vec![1], vec![2]))
    );
    assert_eq!(
        nums_after(then(push(&[1, 2]), vec![Instr::ToAltStack, Instr::ToAltStack, Instr::FromAltStack])),
        Some((vec![1], vec![2]))
    );
}

#[test]
fn groups_of_four_keep_their_order() {
    assert_eq!(
        nums_after(then(push(&[9, 1, 2, 3, 4]), vec![Instr::Qm31ToAltStack])),
        Some((vec![9], vec![4, 3, 2, 1]))
    );
    assert_eq!(
        nums_after(then(
            push(&[9, 1, 2, 3, 4]),
            vec![Instr::Qm31ToAltStack, Instr::Qm31FromAltStack]
        )),
        Some((vec![9, 1, 2, 3, 4], vec![]))
    );
    assert_eq!(
        nums_after(then(push(&[9, 1, 2, 3, 4, 1, 2, 3, 4]), vec![Instr::Qm31EqualVerify])),
        Some((vec![9], vec![]))
    );
    assert_eq!(
        nums_after(then(push(&[9, 1, 2, 3, 4, 1, 2, 3, 5]), vec![Instr::Qm31EqualVerify])),
        None
    );
    assert_eq!(
        nums_after(then(push(&[5, 6, 7]), vec![Instr::CopyToAltStack(2)])),
        Some((vec![5, 6, 7], vec![7, 6]))
    );
}

#[test]
fn bits_come_with_the_lowest_on_top() {
    assert_eq!(
        nums_after(then(push(&[0b01101]), vec![Instr::LimbToBeBits(5)])),
        Some((vec![0, 1, 1, 0, 1], vec![]))
    );
    assert_eq!(
        nums_after(then(push(&[6]), vec![Instr::LimbToBeBits(3), Instr::CopyToAltStack(2)])),
        Some((vec![1, 1, 0], vec![0, 1]))
    );
    assert_eq!(nums_after(then(push(&[32]), vec![Instr::LimbToBeBits(5)])), None);
    assert_eq!(nums_after(then(push(&[0]), vec![Instr::LimbToBeBits(0)])), Some((vec![], vec![])));
    assert_eq!(
        nums_after(then(push(&[0b1011011]), vec![Instr::TrimM31(4)])),
        Some((vec![0b1011], vec![]))
    );
}

#[test]
fn concatenation_and_hash() {
    let mut script = Script::new();
    script.push_bytes(b"a");
    script.push_bytes(b"bc");
    script.push(Instr::Cat);
    script.push(Instr::Sha256);
    script.push_bytes(&hash(b"abc"));
    script.push(Instr::Equal);
    assert!(execute_script(&script).success);

    let mut script = Script::new();
    script.push_bytes(b"a");
    script.push_bytes(b"bc");
    script.push(Instr::Swap);
    script.push(Instr::Cat);
    script.push(Instr::Sha256);
    script.push_bytes(&hash(b"abc"));
    script.push(Instr::Equal);
    let info = execute_script(&script);
    assert!(!info.success);
    assert_eq!(info.final_stack.len(), 1);
}

#[test]
fn packing_on_the_machine_is_packing_off_it() {
    let mut script = Script::new();
    for v in [1, 0x0102, 0x7ffffffe, 0x01020304] {
        script.push_num(v);
    }
    script.push(Instr::CommitQm31);
    script.push_bytes(&[1, 0, 0, 0, 2, 1, 0, 0, 0xfe, 0xff, 0xff, 0x7f, 4, 3, 2, 1]);
    script.push(Instr::Equal);
    assert!(execute_script(&script).success);
}

#[test]
fn underflow_and_wrong_kinds_abort() {
    assert_eq!(nums_after(vec![Instr::Dup]), None);
    assert_eq!(nums_after(then(push(&[1]), vec![Instr::Swap])), None);
    assert_eq!(nums_after(vec![Instr::Drop]), None);
    assert_eq!(nums_after(then(push(&[1]), vec![Instr::Drop2])), None);
    assert_eq!(nums_after(vec![Instr::FromAltStack]), None);
    assert_eq!(nums_after(then(push(&[1, 2, 3]), vec![Instr::Qm31ToAltStack])), None);
    assert_eq!(nums_after(then(push(&[1, 2]), vec![Instr::Roll])), None);
    assert_eq!(nums_after(then(push(&[1, 2]), vec![Instr::Cat])), None);
    assert_eq!(nums_after(then(push(&[1]), vec![Instr::Sha256])), None);
    assert_eq!(nums_after(then(push(&[1, 2]), vec![Instr::CopyToAltStack(3)])), None);
    assert_eq!(nums_after(then(push(&[1, 2]), vec![Instr::EqualVerify])), None);
    assert_eq!(nums_after(then(push(&[2, 2]), vec![Instr::EqualVerify])), Some((vec![], vec![])));
    let mut script = Script::new();
    script.push_bytes(&[1]);
    script.push(Instr::TrimM31(3));
    assert!(!execute_script(&script).success);
    let mut script = Script::new();
    script.push_bytes(&[1]);
    script.push_bytes(&[2]);
    script.push_bytes(&[3]);
    script.push(Instr::Roll);
    assert!(!execute_script(&script).success);
}

#[test]
fn a_run_passes_with_exactly_one_true_item() {
    assert!(execute_script(&program(push(&[1]))).success);
    assert!(execute_script(&program(push(&[7]))).success);
    assert!(!execute_script(&program(push(&[0]))).success);
    assert!(!execute_script(&program(push(&[1, 1]))).success);
    assert!(!execute_script(&program(vec![])).success);
    let mut script = Script::new();
    script.push_bytes(&[0, 0]);
    assert!(!execute_script(&script).success);
    let mut script = Script::new();
    script.push_bytes(&[0, 4]);
    assert!(execute_script(&script).success);
    let mut script = Script::new();
    script.push_bytes(&[]);
    assert!(!execute_script(&script).success);
    assert_eq!(execute_script(&program(then(push(&[1, 2]), vec![Instr::Equal]))).final_stack.len(), 1);
    assert!(execute_script(&program(then(push(&[2, 2]), vec![Instr::Equal]))).success);
}

#[test]
fn a_path_of_height_two_is_checked_level_by_level() {
    let leaf = [3u32, 1, 4, 1];
    let mut packed = Vec::new();
    for v in leaf {
        packed.extend_from_slice(&v.to_le_bytes());
    }
    let s0 = [10u8; 32];
    let s1 = [11u8; 32];
    // position 2: bit 0 is 0 (the leaf is a left child), bit 1 is 1 (right child)
    let root = hash_pair(&s1, &hash_pair(&hash(&packed), &s0));
    let build = |root: [u8; 32], position: u32| {
        let mut script = Script::new();
        for v in leaf {
            script.push_num(v);
        }
        script.push_bytes(&s0);
        script.push_bytes(&s1);
        script.push_num(position);
        script.push(Instr::LimbToBeBits(2));
        script.push(Instr::CopyToAltStack(2));
        script.push(Instr::Drop2);
        script.push_bytes(&root);
        script.push(Instr::MerkleVerify(2));
        script.push_num(1);
        script.push(Instr::EqualVerify);
        script.push_num(4);
        script.push(Instr::EqualVerify);
        script.push_num(1);
        script.push(Instr::EqualVerify);
        script.push_num(3);
        script.push(Instr::Equal);
        execute_script(&script).success
    };
    assert!(build(root, 2));
    assert!(!build(root, 0));
    assert!(!build(root, 1));
    assert!(!build(root, 3));
    let mut other = root;
    other[5] ^= 4;
    assert!(!build(other, 2));
}

#[test]
fn a_twiddle_position_outside_the_table_aborts() {
    let pair = [5u32, 6];
    let mut packed = Vec::new();
    for v in pair {
        packed.extend_from_slice(&v.to_le_bytes());
    }
    let sibling = [1u8; 32];
    let root = hash_pair(&sibling, &hash(&packed));
    let build = |position: u32| {
        let mut script = Script::new();
        script.push_num(pair[0]);
        script.push_num(pair[1]);
        script.push_bytes(&sibling);
        script.push_bytes(&root);
        script.push_num(position);
        script.push(Instr::TwiddleVerify(1));
        script.push(Instr::Drop);
        execute_script(&script).success
    };
    assert!(build(1));
    assert!(!build(0));
    assert!(!build(2));
    assert!(!build(3));
}
