use transistor_count::{
    caret_marker, cdl_parse, resolve_position, transistor_total, CDLParser, CdlError, CellTable,
    Stat,
};

fn names(list: &[&str]) -> Vec<Option<Vec<u8>>> {
    list.iter().map(|n| Some(n.as_bytes().to_vec())).collect()
}

const INVERTER: &str = "* inverter cell\n\
.SUBCKT INVX1 A Y VDD VSS\n\
MM0 Y A VSS VSS nch W=1u L=0.1u\n\
MM1 Y A VDD VDD pch W=1u L=0.1u\n\
.ENDS INVX1\n";

#[test]
fn end_to_end_inverter_three_times() {
    let netlist = names(&["INVX1", "INVX1", "INVX1", "BUFX2"]);
    let r = transistor_total(INVERTER.as_bytes(), &netlist).unwrap();
    assert_eq!(r, Some(6));
    assert_eq!(format!("Transistors: {}", r.unwrap()), "Transistors: 6");

    let mut table = cdl_parse(INVERTER.as_bytes()).unwrap();
    table.count_instances(&netlist);
    assert_eq!(table.len(), 1);
    assert_eq!(table.get(b"INVX1"), Some(Stat::new(2, 3)));
    assert_eq!(table.get(b"BUFX2"), None);
}

#[test]
fn table_has_one_entry_per_definition() {
    let text = ".subckt NAND2 A B Y VDD VSS\n\
MM0 Y A n1 VSS nch\n\
MM1 n1 B VSS VSS nch\n\
MM2 Y A VDD VDD pch\n\
mM3 Y B VDD VDD pch\n\
XINV Y Z VDD VSS INVX1\n\
R1 Y Z 10\n\
+ continued\n\
.ends NAND2\n\
\n\
.SUBCKT INVX1 A Y\n\
MM0 Y A VSS VSS nch\n\
MM1 Y A VDD VDD pch\n\
.ENDS INVX1\n";
    let table = cdl_parse(text.as_bytes()).unwrap();
    assert_eq!(table.len(), 2);
    assert_eq!(table.get(b"NAND2"), Some(Stat::new(4, 0)));
    assert_eq!(table.get(b"INVX1"), Some(Stat::new(2, 0)));
    assert_eq!(table.name_at(0), b"NAND2");
    assert_eq!(table.stat_at(1), Stat::new(2, 0));
}

#[test]
fn later_definition_wins() {
    let text = ".SUBCKT A x\nM1 a b c d n\n.ENDS A\n.SUBCKT B x\n.ENDS B\n.SUBCKT A x\nM1 a b c d n\nM2 a b c d n\nM3 a b c d n\n.ENDS A\n";
    let table = cdl_parse(text.as_bytes()).unwrap();
    assert_eq!(table.len(), 2);
    assert_eq!(table.get(b"A"), Some(Stat::new(3, 0)));
    assert_eq!(table.get(b"B"), Some(Stat::new(0, 0)));
    assert_eq!(table.name_at(0), b"A");
}

#[test]
fn parser_lists_definitions_in_order() {
    let text = "\r\n.SUBCKT   P  q\r\n\tMX a b c d\r\n.ENDS P\r\n.SUBCKT Q\n.ENDS Q";
    let defs = CDLParser::parse(text.as_bytes()).unwrap();
    assert_eq!(defs.len(), 2);
    assert_eq!(defs[0].name, b"P".to_vec());
    assert_eq!(defs[0].elements, 1);
    assert_eq!(defs[1].name, b"Q".to_vec());
    assert_eq!(defs[1].elements, 0);
}

#[test]
fn empty_description_gives_empty_table() {
    let table = cdl_parse(b"").unwrap();
    assert_eq!(table.len(), 0);
    let table = cdl_parse(b"* only a comment\nM1 a b c d n\n").unwrap();
    assert_eq!(table.len(), 0);
}

#[test]
fn boundary_mismatch_aborts() {
    let text = ".SUBCKT INVX1 A Y\nMM0 Y A VSS VSS nch\n.ENDS INVX2\n";
    match cdl_parse(text.as_bytes()) {
        Err(CdlError::BoundaryMismatch { line, opened, closed }) => {
            assert_eq!(line, 3);
            assert_eq!(opened, b"INVX1".to_vec());
            assert_eq!(closed, b"INVX2".to_vec());
        }
        other => panic!("unexpected result {:?}", other.is_ok()),
    }
    let r = transistor_total(text.as_bytes(), &names(&["INVX1"]));
    assert!(matches!(r, Err(CdlError::BoundaryMismatch { .. })));
    let unnamed = ".SUBCKT INVX1 A Y\n.ENDS\n";
    assert!(matches!(
        cdl_parse(unnamed.as_bytes()),
        Err(CdlError::BoundaryMismatch { line: 2, .. })
    ));
}

#[test]
fn grammar_errors_name_their_line() {
    assert!(matches!(
        cdl_parse(b"* c\n.SUBCKT\n.ENDS\n"),
        Err(CdlError::MissingName { line: 2 })
    ));
    assert!(matches!(
        cdl_parse(b".SUBCKT A\n.SUBCKT B\n.ENDS B\n.ENDS A\n"),
        Err(CdlError::NestedSubckt { line: 2 })
    ));
    assert!(matches!(
        cdl_parse(b"\n\n.ENDS A\n"),
        Err(CdlError::StrayEnds { line: 3 })
    ));
    assert!(matches!(
        cdl_parse(b".SUBCKT A\n.ENDS A\n.SUBCKT B\nM1 a b c d n\n"),
        Err(CdlError::Unterminated { line: 3 })
    ));
}

#[test]
fn counting_adds_one_per_known_instantiation() {
    let text = ".SUBCKT A\nM1 a b c d n\n.ENDS A\n.SUBCKT B\nM1 a b c d n\nM2 a b c d n\n.ENDS B\n";
    let mut table = cdl_parse(text.as_bytes()).unwrap();
    let mut list = names(&["A", "B", "C", "A", "top", "a"]);
    list.push(None);
    table.count_instances(&list);
    assert_eq!(table.get(b"A"), Some(Stat::new(1, 2)));
    assert_eq!(table.get(b"B"), Some(Stat::new(2, 1)));
    let sum: i64 = (0..table.len()).map(|i| table.stat_at(i).count).sum();
    assert_eq!(sum, 3);
    assert_eq!(table.total(), Some(4));
}

#[test]
fn unknown_names_change_nothing() {
    let text = ".SUBCKT A\nM1 a b c d n\n.ENDS A\n";
    let mut table = cdl_parse(text.as_bytes()).unwrap();
    table.count_instances(&names(&["X", "Y", "AA"]));
    assert_eq!(table.get(b"A"), Some(Stat::new(1, 0)));
    assert_eq!(table.total(), Some(0));
}

#[test]
fn total_is_stable_and_zero_without_instances() {
    let empty = CellTable::new();
    assert_eq!(empty.total(), Some(0));
    let mut table = CellTable::new();
    table.insert(b"A".to_vec(), Stat::new(4, 0));
    table.insert(b"B".to_vec(), Stat::new(7, 0));
    assert_eq!(table.total(), Some(0));
    table.insert(b"B".to_vec(), Stat::new(7, 5));
    assert_eq!(table.len(), 2);
    let first = table.total();
    let second = table.total();
    assert_eq!(first, Some(35));
    assert_eq!(first, second);
}

#[test]
fn total_reports_overflow() {
    let mut table = CellTable::new();
    table.insert(b"A".to_vec(), Stat::new(i64::MAX, 1));
    assert_eq!(table.total(), Some(i64::MAX));
    table.insert(b"B".to_vec(), Stat::new(1, 1));
    assert_eq!(table.total(), None);
    let mut big = CellTable::new();
    big.insert(b"C".to_vec(), Stat::new(1 << 40, 1 << 40));
    assert_eq!(big.total(), None);
}

#[test]
fn record_instance_bumps_known_name() {
    let mut table = CellTable::new();
    table.insert(b"A".to_vec(), Stat::new(3, 0));
    table.record_instance(b"A");
    table.record_instance(b"Z");
    assert_eq!(table.get(b"A"), Some(Stat::new(3, 1)));
    assert_eq!(table.len(), 1);
}

#[test]
fn stat_new_keeps_fields() {
    let s = Stat::new(12, 34);
    assert_eq!(s.transistors, 12);
    assert_eq!(s.count, 34);
}

fn five_lines() -> Vec<u8> {
    let mut buf = Vec::new();
    for k in 0..5u8 {
        let mut line = vec![b'a' + k; 39];
        line[10] = b'#';
        buf.extend_from_slice(&line);
        buf.push(b'\n');
    }
    buf
}

#[test]
fn syntax_error_at_offset_120() {
    let buf = five_lines();
    assert_eq!(buf.len(), 200);
    let p = resolve_position(&buf, 120).unwrap();
    assert_eq!(p.line, 4);
    assert_eq!(p.column, 1);
    assert_eq!(p.excerpt, vec![b'd'; 10].into_iter().chain([b'#']).chain(vec![b'd'; 28]).collect::<Vec<u8>>());
    assert_eq!(p.caret_offset, 0);
    assert_eq!(p.caret_width, 1);
    assert_eq!(caret_marker(&p), b"^".to_vec());
    let q = resolve_position(&buf, 130).unwrap();
    assert_eq!((q.line, q.column), (4, 11));
    assert_eq!(caret_marker(&q), b"          ^".to_vec());
}

#[test]
fn position_round_trips() {
    let buf = b"ab\ncde\n\nfg";
    let expect = [
        (0, 1, 1),
        (1, 1, 2),
        (2, 1, 3),
        (3, 2, 1),
        (5, 2, 3),
        (7, 3, 1),
        (8, 4, 1),
        (9, 4, 2),
    ];
    for (off, line, column) in expect {
        let p = resolve_position(buf, off).unwrap();
        assert_eq!((p.line, p.column), (line, column), "offset {}", off);
    }
    let p = resolve_position(buf, 4).unwrap();
    assert_eq!(p.excerpt, b"cde".to_vec());
    assert_eq!(p.caret_offset, 1);
}

#[test]
fn position_past_end_has_no_excerpt() {
    let buf = b"abc\n";
    assert!(resolve_position(buf, 4).is_none());
    assert!(resolve_position(buf, 100).is_none());
    assert!(resolve_position(b"", 0).is_none());
}

#[test]
fn caret_on_line_break_is_empty() {
    let buf = b"ab\r\ncd";
    let p = resolve_position(buf, 2).unwrap();
    assert_eq!((p.line, p.column), (1, 3));
    assert_eq!(p.excerpt, b"ab".to_vec());
    assert_eq!(p.caret_width, 0);
    assert_eq!(caret_marker(&p), b"  ".to_vec());
    let p = resolve_position(buf, 4).unwrap();
    assert_eq!((p.line, p.column), (2, 1));
    assert_eq!(p.excerpt, b"cd".to_vec());
}
