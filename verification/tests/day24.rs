use advent::day24::{
    combine, compute_z_output, name_of, parse, parse_gate, parse_wire, words, Device, Gate, GateKind, Wire,
    _solution1, INPUT_BITS, MAX_ROUNDS, UNSETTLED,
};

const SMALL: &str = "x00: 1\nx01: 1\nx02: 1\ny00: 0\ny01: 1\ny02: 0\n\nx00 AND y00 -> z00\nx01 XOR y01 -> z01\nx02 OR y02 -> z02\n";

const LARGER: &str = "x00: 1\nx01: 0\nx02: 1\nx03: 1\nx04: 0\ny00: 1\ny01: 1\ny02: 1\ny03: 1\ny04: 1\n\nntg XOR fgs -> mjb\ny02 OR x01 -> tnw\nkwq OR kpj -> z05\nx00 OR x03 -> fst\ntgd XOR rvg -> z01\nvdt OR tnw -> bfw\nbfw AND frj -> z10\nffh OR nrd -> bqk\ny00 AND y03 -> djm\ny03 OR y00 -> psh\nbqk OR frj -> z08\ntnw OR fst -> frj\ngnj AND tgd -> z11\nbfw XOR mjb -> z00\nx03 OR x00 -> vdt\ngnj AND wpb -> z02\nx04 AND y00 -> kjc\ndjm OR pbm -> qhw\nnrd AND vdt -> hwm\nkjc AND fst -> rvg\ny04 OR y02 -> fgs\ny01 AND x02 -> pbm\nntg OR kjc -> kwq\npsh XOR fgs -> tgd\nqhw XOR tgd -> z09\npbm OR djm -> kpj\nx03 XOR y03 -> ffh\nx00 XOR y04 -> ntg\nbfw OR bqk -> z06\nnrd XOR fgs -> wpb\nfrj XOR qhw -> z04\nbqk OR frj -> z07\ny03 OR x01 -> nrd\nhwm AND bqk -> z03\ntgd XOR rvg -> z12\ntnw OR pbm -> gnj\n";

fn gate(input1: &str, kind: GateKind, input2: &str, output: &str) -> Gate {
    Gate {
        input1: input1.as_bytes().to_vec(),
        input2: input2.as_bytes().to_vec(),
        output: output.as_bytes().to_vec(),
        kind,
    }
}

#[test]
fn day24_1_1() {
    assert_eq!(_solution1(&String::from(LARGER)), Some(2024));
}

#[test]
fn day24_small_device() {
    assert_eq!(_solution1(&String::from(SMALL)), Some(4));
    let mut device = parse(&String::from(SMALL)).unwrap();
    assert_eq!(device.output_of(b"x00"), None);
    device.seed_wire_outputs();
    assert_eq!(device.output_of(b"x00"), Some(1));
    assert_eq!(device.output_of(b"y02"), Some(0));
    assert_eq!(device.output_of(b"z00"), None);
    assert_eq!(compute_z_output(&mut device), Some(4));
    assert_eq!(device.output_of(b"z00"), Some(0));
    assert_eq!(device.output_of(b"z01"), Some(0));
    assert_eq!(device.output_of(b"z02"), Some(1));
    assert_eq!(device.output_of(b"z03"), None);
}

#[test]
fn day24_reading_lines() {
    let wire = parse_wire(b"x07: -12").unwrap();
    assert_eq!(wire.id, b"x07".to_vec());
    assert_eq!(wire.output_val, -12);
    let odd = parse_wire(b"a: b: 3");
    assert!(odd.is_none());
    assert!(parse_wire(b"x07:1").is_none());
    assert!(parse_wire(b"x07: one").is_none());
    let empty_name = parse_wire(b": 5").unwrap();
    assert_eq!(empty_name.id, Vec::<u8>::new());
    assert_eq!(empty_name.output_val, 5);
    assert_eq!(
        words(b"  ab \t cd\x0bef  "),
        vec![b"ab".to_vec(), b"cd".to_vec(), b"ef".to_vec()]
    );
    assert!(words(b" \t ").is_empty());
    assert_eq!(parse_gate(b"a XOR b -> c"), Some(gate("a", GateKind::XOR, "b", "c")));
    assert_eq!(parse_gate(b"a  OR   b to c and more"), Some(gate("a", GateKind::OR, "b", "c")));
    assert_eq!(parse_gate(b"a AND b -> c"), Some(gate("a", GateKind::AND, "b", "c")));
    assert_eq!(parse_gate(b"a NOR b -> c"), None);
    assert_eq!(parse_gate(b"a xor b -> c"), None);
    assert_eq!(parse_gate(b"a XOR b ->"), None);
    assert!(parse(&String::from("x00: 1\n\nx00 NOT x00 -> z00\n")).is_none());
    assert!(parse(&String::from("x00 1\n\nx00 OR x00 -> z00\n")).is_none());
    assert!(parse(&String::from("x00: 1\nx00 OR x00 -> z00\n")).is_none());
    assert_eq!(_solution1(&String::from("x00: 1\nx00 OR x00 -> z00\n")), None);
    assert_eq!(_solution1(&String::from("")), Some(0));
    assert_eq!(_solution1(&String::from("z00: 1\nz01: 1\nz03: 1\n\n\n")), Some(3));
    assert_eq!(_solution1(&String::from("z00: 3\nz01: 1\n\n\n")), Some(1));
    assert_eq!(_solution1(&String::from("z00: 1\nz01: 0\n\nz00 XOR z00 -> z01\n")), Some(1));
}

#[test]
fn day24_gates_in_file_order_from_the_end() {
    let text = String::from("a: 1\nb: 0\n\na OR b -> z00\na AND b -> z00\n");
    assert_eq!(_solution1(&text), Some(0));
    let text = String::from("a: 1\nb: 0\n\na AND b -> z00\na OR b -> z00\n");
    assert_eq!(_solution1(&text), Some(1));
}

#[test]
fn day24_gate_kinds_and_names() {
    assert_eq!(combine(GateKind::OR, 1, 0), 1);
    assert_eq!(combine(GateKind::XOR, 1, 1), 0);
    assert_eq!(combine(GateKind::AND, 1, 0), 0);
    assert_eq!(combine(GateKind::OR, 4, 3), 7);
    assert_eq!(combine(GateKind::XOR, 6, 3), 5);
    assert_eq!(combine(GateKind::AND, 6, 3), 2);
    assert_eq!(name_of(b'z', 0), b"z00".to_vec());
    assert_eq!(name_of(b'x', 7), b"x07".to_vec());
    assert_eq!(name_of(b'y', 44), b"y44".to_vec());
    assert_eq!(INPUT_BITS, 45);
    assert_eq!(MAX_ROUNDS, 100000);
    assert_eq!(UNSETTLED, 99999);
}

#[test]
fn day24_numbers_put_in() {
    let half_adder = vec![
        gate("x00", GateKind::XOR, "y00", "z00"),
        gate("x00", GateKind::AND, "y00", "z01"),
    ];
    let mut device = Device::from_sum(half_adder.clone(), 1, 1);
    assert_eq!(compute_z_output(&mut device), Some(2));
    let mut device = Device::from_sum(half_adder.clone(), 1, 0);
    assert_eq!(compute_z_output(&mut device), Some(1));
    let mut device = Device::from_sum(half_adder, 0, 0);
    assert_eq!(compute_z_output(&mut device), Some(0));
    let mut device = Device::from_sum(vec![], 0b1011, 1 << 44);
    device.seed_wire_outputs();
    assert_eq!(device.output_of(b"x00"), Some(1));
    assert_eq!(device.output_of(b"x01"), Some(1));
    assert_eq!(device.output_of(b"x02"), Some(0));
    assert_eq!(device.output_of(b"x03"), Some(1));
    assert_eq!(device.output_of(b"x04"), Some(0));
    assert_eq!(device.output_of(b"x44"), Some(0));
    assert_eq!(device.output_of(b"x45"), None);
    assert_eq!(device.output_of(b"y44"), Some(1));
    assert_eq!(device.output_of(b"y43"), Some(0));
    assert_eq!(device.output_of(b"y00"), Some(0));
    let mut device = Device::from_sum(vec![], -2, -1);
    device.seed_wire_outputs();
    assert_eq!(device.output_of(b"x00"), Some(0));
    assert_eq!(device.output_of(b"x01"), Some(1));
    assert_eq!(device.output_of(b"x44"), Some(1));
    assert_eq!(device.output_of(b"y00"), Some(1));
}

#[test]
fn day24_first_value_stays() {
    let wires = vec![
        Wire { id: b"a".to_vec(), output_val: 1 },
        Wire { id: b"a".to_vec(), output_val: 0 },
        Wire { id: b"z00".to_vec(), output_val: 1 },
    ];
    let gates = vec![gate("a", GateKind::XOR, "a", "z00")];
    let mut device = Device::new(wires, gates);
    assert_eq!(compute_z_output(&mut device), Some(1));
    assert_eq!(device.output_of(b"a"), Some(1));
}

#[test]
fn day24_device_that_never_rests() {
    let wires = vec![
        Wire { id: b"x".to_vec(), output_val: 1 },
        Wire { id: b"c".to_vec(), output_val: 1 },
        Wire { id: b"z00".to_vec(), output_val: 1 },
    ];
    let gates = vec![gate("x", GateKind::AND, "c", "c")];
    let mut device = Device::new(wires, gates);
    assert_eq!(compute_z_output(&mut device), Some(99999));
}
