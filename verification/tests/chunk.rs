use bang::chunk::{LineInfoBuilder, OpCode};

#[test]
fn chunk_lines_read_back() {
    let mut builder = LineInfoBuilder::new();
    builder.add(1);
    builder.add(0);
    builder.add(3);
    builder.add(3);
    builder.add(0);
    builder.add(2);
    let info = builder.finalize();
    let lines: Vec<u16> = (0..6).map(|i| info.get(i)).collect();
    assert_eq!(lines, vec![1, 1, 3, 3, 3, 2]);
}

#[test]
fn chunk_lines_start_on_line_one() {
    let mut builder = LineInfoBuilder::new();
    builder.add(0);
    builder.add(5);
    let info = builder.finalize();
    assert_eq!(info.get(0), 1);
    assert_eq!(info.get(1), 5);
}

#[test]
fn chunk_opcodes_compare_with_their_operands() {
    assert_eq!(OpCode::Constant(1), OpCode::Constant(1));
    assert_ne!(OpCode::Constant(1), OpCode::Constant(2));
    assert_ne!(OpCode::Jump(3), OpCode::Loop(3));
}

#[test]
fn chunk_lines_can_be_read_for_each_instruction() {
    let mut builder = LineInfoBuilder::new();
    builder.add(1);
    builder.add(0);
    builder.add(4);
    let info = builder.finalize();
    assert!(info.can_get(0));
    assert!(info.can_get(2));
    assert!(!info.can_get(3));
    assert!(!LineInfoBuilder::new().finalize().can_get(0));
}

#[test]
fn chunk_lines_of_an_empty_table_are_zero() {
    let info = LineInfoBuilder::new().finalize();
    assert_eq!(info.get(0), 0);
    assert_eq!(info.get(7), 0);
}
