use garbled_circuit::parser::{
    kind_from_name, parse_bristol_fashion, parse_gate, parse_number, split_lines, split_words,
    ParseError,
};
use garbled_circuit::utils::GateType;
use garbled_circuit::yosys::{
    build_gate, find_named, handle_port_direction, parse_yosys_modules, YosysCell, YosysModule,
    YosysPort,
};

fn s(text: &str) -> String {
    String::from(text)
}

const ADDER1: &str = "4 7\n2 1 1\n1 2\n\n2 1 0 1 5 XOR\n2 1 0 1 3 AND\n1 1 3 4 INV\n2 1 4 5 6 OR\n";

#[test]
fn split_lines_cuts_at_line_feeds() {
    assert_eq!(split_lines(b"ab\ncd"), vec![b"ab".to_vec(), b"cd".to_vec()]);
    assert_eq!(split_lines(b"ab\n"), vec![b"ab".to_vec()]);
    assert_eq!(
        split_lines(b"ab\n\ncd\n"),
        vec![b"ab".to_vec(), Vec::new(), b"cd".to_vec()]
    );
    assert_eq!(split_lines(b"\n"), vec![Vec::<u8>::new()]);
    assert_eq!(split_lines(b""), Vec::<Vec<u8>>::new());
}

#[test]
fn split_words_drops_blanks() {
    assert_eq!(
        split_words(b"  2 1\t10  11 AND \r"),
        vec![
            b"2".to_vec(),
            b"1".to_vec(),
            b"10".to_vec(),
            b"11".to_vec(),
            b"AND".to_vec()
        ]
    );
    assert_eq!(split_words(b"   "), Vec::<Vec<u8>>::new());
    assert_eq!(split_words(b""), Vec::<Vec<u8>>::new());
    assert_eq!(split_words(b"x"), vec![b"x".to_vec()]);
}

#[test]
fn parse_number_reads_decimal() {
    assert_eq!(parse_number(b"0"), Some(0));
    assert_eq!(parse_number(b"007"), Some(7));
    assert_eq!(parse_number(b"1076"), Some(1076));
    assert_eq!(parse_number(b"18446744073709551615"), Some(u64::MAX));
    assert_eq!(parse_number(b"18446744073709551616"), None);
    assert_eq!(parse_number(b"99999999999999999999999"), None);
    assert_eq!(parse_number(b"1844674407370955161x"), None);
    assert_eq!(parse_number(b""), None);
    assert_eq!(parse_number(b"-1"), None);
    assert_eq!(parse_number(b"+1"), None);
    assert_eq!(parse_number(b"12a"), None);
}

#[test]
fn kind_from_name_knows_four_names() {
    assert_eq!(kind_from_name(b"AND"), Some(GateType::AND));
    assert_eq!(kind_from_name(b"OR"), Some(GateType::OR));
    assert_eq!(kind_from_name(b"XOR"), Some(GateType::XOR));
    assert_eq!(kind_from_name(b"INV"), Some(GateType::NOT));
    assert_eq!(kind_from_name(b"NOT"), None);
    assert_eq!(kind_from_name(b"and"), None);
    assert_eq!(kind_from_name(b""), None);
    assert_eq!(kind_from_name(b"ANDX"), None);
}

#[test]
fn parse_gate_reads_wires_and_kind() {
    let g = parse_gate(b"2 1 10 11 12 AND").unwrap();
    assert_eq!(g.inputs, vec![10u64, 11]);
    assert_eq!(g.output, 12);
    assert_eq!(g.type_, GateType::AND);
    let g = parse_gate(b"1 1 3 4 INV").unwrap();
    assert_eq!(g.inputs, vec![3u64]);
    assert_eq!(g.output, 4);
    assert_eq!(g.type_, GateType::NOT);
    let g = parse_gate(b"0 1 9 XOR").unwrap();
    assert_eq!(g.inputs, Vec::<u64>::new());
    assert_eq!(g.output, 9);
}

#[test]
fn parse_gate_refuses_what_is_no_gate() {
    assert!(parse_gate(b"").is_none());
    assert!(parse_gate(b"2 1 AND").is_none());
    assert!(parse_gate(b"3 1 1 2 3 4 AND").is_none());
    assert!(parse_gate(b"2 1 1 2 3 MAJ").is_none());
    assert!(parse_gate(b"2 1 1 x 3 AND").is_none());
    assert!(parse_gate(b"2 1 1 2 y AND").is_none());
}

#[test]
fn bristol_netlist_is_read() {
    let (circuit, ins, outs) = parse_bristol_fashion(ADDER1).unwrap();
    assert_eq!(ins, vec![(s("a"), vec![0u64]), (s("b"), vec![1u64])]);
    assert_eq!(outs, vec![(s("out"), vec![5u64, 6])]);
    assert_eq!(circuit.len(), 6);
    assert_eq!(circuit[&0], (GateType::INPUT, vec![]));
    assert_eq!(circuit[&1], (GateType::INPUT, vec![]));
    assert_eq!(circuit[&5], (GateType::XOR, vec![0, 1]));
    assert_eq!(circuit[&3], (GateType::AND, vec![0, 1]));
    assert_eq!(circuit[&4], (GateType::NOT, vec![3]));
    assert_eq!(circuit[&6], (GateType::OR, vec![4, 5]));
}

#[test]
fn bristol_later_line_overrides() {
    let text = "2 3\n2 1 1\n1 1\n\n2 1 0 1 2 AND\n2 1 0 1 2 XOR";
    let (circuit, _, outs) = parse_bristol_fashion(text).unwrap();
    assert_eq!(circuit[&2], (GateType::XOR, vec![0, 1]));
    assert_eq!(outs, vec![(s("out"), vec![2u64])]);
}

#[test]
fn bristol_without_gates() {
    let (circuit, ins, outs) = parse_bristol_fashion("0 3\n2 2 1\n1 0\n\n").unwrap();
    assert_eq!(circuit.len(), 3);
    assert_eq!(ins, vec![(s("a"), vec![0u64, 1]), (s("b"), vec![2u64])]);
    assert_eq!(outs, vec![(s("out"), Vec::<u64>::new())]);
}

#[test]
fn bristol_bad_header() {
    assert_eq!(parse_bristol_fashion("").err(), Some(ParseError::BadHeader));
    assert_eq!(parse_bristol_fashion("1 2\n2 1 1\n1 1").err(), Some(ParseError::BadHeader));
    assert_eq!(
        parse_bristol_fashion("1\n2 1 1\n1 1\n\n").err(),
        Some(ParseError::BadHeader)
    );
    assert_eq!(
        parse_bristol_fashion("1 x\n2 1 1\n1 1\n\n").err(),
        Some(ParseError::BadHeader)
    );
    assert_eq!(
        parse_bristol_fashion("1 3\n2 1\n1 1\n\n").err(),
        Some(ParseError::BadHeader)
    );
    assert_eq!(
        parse_bristol_fashion("1 3\n2 1 1\n1\n\n").err(),
        Some(ParseError::BadHeader)
    );
    // more input bits than wires
    assert_eq!(
        parse_bristol_fashion("1 3\n2 2 2\n1 1\n\n").err(),
        Some(ParseError::BadHeader)
    );
    // more output bits than wires
    assert_eq!(
        parse_bristol_fashion("1 3\n2 1 1\n1 4\n\n").err(),
        Some(ParseError::BadHeader)
    );
}

#[test]
fn bristol_bad_gate() {
    assert_eq!(
        parse_bristol_fashion("1 3\n2 1 1\n1 1\n\n2 1 0 1 2 MAJ\n").err(),
        Some(ParseError::BadGate)
    );
    assert_eq!(
        parse_bristol_fashion("1 3\n2 1 1\n1 1\n\n2 1 0 1 2 AND\n\n").err(),
        Some(ParseError::BadGate)
    );
    assert_eq!(
        parse_bristol_fashion("1 3\n2 1 1\n1 1\n\n3 1 0 1 1 0 2 AND\n").err(),
        Some(ParseError::BadGate)
    );
}

#[test]
fn gate_type_names() {
    assert_eq!(GateType::from_name("$_AND_"), Some(GateType::AND));
    assert_eq!(GateType::from_name("$_OR_"), Some(GateType::OR));
    assert_eq!(GateType::from_name("$_NOT_"), Some(GateType::NOT));
    assert_eq!(GateType::from_name("$_XOR_"), Some(GateType::XOR));
    assert_eq!(GateType::from_name("$_NOR_"), Some(GateType::NOR));
    assert_eq!(GateType::from_name("$_NAND_"), Some(GateType::NAND));
    assert_eq!(GateType::from_name("$_ANDNOT_"), Some(GateType::ANDNOT));
    assert_eq!(GateType::from_name("$_ORNOT_"), Some(GateType::ORNOT));
    assert_eq!(GateType::from_name("$_XNOR_"), Some(GateType::XNOR));
    assert_eq!(GateType::from_name("AND"), None);
    assert_eq!(GateType::from_name("$_MUX_"), None);
    assert_eq!("$_NAND_".parse::<GateType>(), Ok(GateType::NAND));
    assert_eq!("nand".parse::<GateType>(), Err(()));
    assert_eq!(GateType::ANDNOT.name(), "ANDNOT");
    assert_eq!(GateType::CONST_1.name(), "CONST_1");
    assert_eq!(GateType::INPUT.name(), "INPUT");
}

fn cell(kind: &str, pins: &[(&str, &str, i32)]) -> YosysCell {
    YosysCell {
        type_: s(kind),
        port_directions: pins.iter().map(|(n, d, _)| (s(n), s(d))).collect(),
        connections: pins.iter().map(|(n, _, w)| (s(n), vec![*w])).collect(),
    }
}

#[test]
fn find_named_gives_first_place() {
    let list = vec![(s("A"), 1), (s("B"), 2), (s("A"), 3)];
    assert_eq!(find_named(&list, &s("A")), 0);
    assert_eq!(find_named(&list, &s("B")), 1);
    assert_eq!(find_named(&list, &s("C")), 3);
}

#[test]
fn handle_port_direction_appends() {
    let mut map: Vec<(String, Vec<u64>)> = Vec::new();
    handle_port_direction(&s("a"), 2, &mut map);
    handle_port_direction(&s("b"), 3, &mut map);
    handle_port_direction(&s("a"), 4, &mut map);
    assert_eq!(map, vec![(s("a"), vec![2u64, 4]), (s("b"), vec![3u64])]);
}

#[test]
fn build_gate_orders_inputs_by_connection() {
    let g = build_gate(&cell("$_ANDNOT_", &[("A", "input", 2), ("B", "input", 3), ("Y", "output", 4)]))
        .unwrap();
    assert_eq!(g.inputs, vec![2u64, 3]);
    assert_eq!(g.output, 4);
    assert_eq!(g.type_, GateType::ANDNOT);
    let g = build_gate(&cell("$_NOT_", &[("A", "input", 7), ("Y", "output", 8)])).unwrap();
    assert_eq!(g.inputs, vec![7u64]);
    assert_eq!(g.output, 8);
}

#[test]
fn build_gate_refuses_what_is_no_gate() {
    let bad = |c: YosysCell| build_gate(&c).err() == Some(ParseError::BadCell);
    assert!(bad(cell("$_MUX_", &[("A", "input", 2), ("Y", "output", 4)])));
    assert!(bad(cell("$_NOT_", &[("A", "input", 2)])));
    assert!(bad(cell("$_NOT_", &[("A", "inout", 2), ("Y", "output", 4)])));
    assert!(bad(cell("$_NOT_", &[("A", "input", -1), ("Y", "output", 4)])));
    let mut c = cell("$_NOT_", &[("A", "input", 2), ("Y", "output", 4)]);
    c.port_directions.pop();
    assert!(bad(c));
    let mut c = cell("$_NOT_", &[("A", "input", 2), ("Y", "output", 4)]);
    c.connections.remove(0);
    assert!(bad(c));
    let mut c = cell("$_NOT_", &[("A", "input", 2), ("Y", "output", 4)]);
    c.connections[0].1.clear();
    assert!(bad(c));
}

fn module() -> YosysModule {
    YosysModule {
        ports: vec![
            (s("a"), YosysPort { direction: s("input"), bits: vec![2, 3] }),
            (s("b"), YosysPort { direction: s("input"), bits: vec![4] }),
            (s("y"), YosysPort { direction: s("output"), bits: vec![6] }),
        ],
        cells: vec![
            (s("g0"), cell("$_AND_", &[("A", "input", 2), ("B", "input", 3), ("Y", "output", 5)])),
            (s("g1"), cell("$_XOR_", &[("A", "input", 5), ("B", "input", 4), ("Y", "output", 6)])),
        ],
    }
}

#[test]
fn yosys_modules_are_assembled() {
    let (circuit, ins, outs) = parse_yosys_modules(&vec![(s("top"), module())]).unwrap();
    assert_eq!(ins, vec![(s("a"), vec![2u64, 3]), (s("b"), vec![4u64])]);
    assert_eq!(outs, vec![(s("y"), vec![6u64])]);
    assert_eq!(circuit.len(), 5);
    assert_eq!(circuit[&2], (GateType::INPUT, vec![]));
    assert_eq!(circuit[&4], (GateType::INPUT, vec![]));
    assert_eq!(circuit[&5], (GateType::AND, vec![2, 3]));
    assert_eq!(circuit[&6], (GateType::XOR, vec![5, 4]));
    let (empty, _, _) = parse_yosys_modules(&vec![]).unwrap();
    assert_eq!(empty.len(), 0);
}

#[test]
fn yosys_modules_report_bad_ports_and_cells() {
    let mut m = module();
    m.ports[1].1.direction = s("inout");
    assert_eq!(
        parse_yosys_modules(&vec![(s("top"), m)]).err(),
        Some(ParseError::BadPort)
    );
    let mut m = module();
    m.ports[0].1.bits[1] = -3;
    assert_eq!(
        parse_yosys_modules(&vec![(s("top"), m)]).err(),
        Some(ParseError::BadPort)
    );
    let mut m = module();
    m.cells[1].1.type_ = s("$_DFF_");
    assert_eq!(
        parse_yosys_modules(&vec![(s("top"), m)]).err(),
        Some(ParseError::BadCell)
    );
}
