use befrust::program::Program;
use befrust::{Pc, Point};

fn test_io(source: &[u8], input: &[u8], expected: &[u8]) {
    let mut p = Program::new(input.to_vec());
    p.load(source);
    p.run();
    assert_eq!(expected, p.output().as_slice());
}

#[test]
fn point_add() {
    let a = Point { x: 1, y: 1 };
    let b = Point { x: -1, y: 1 };
    assert_eq!(Point { x: 0, y: 2 }, a.add(b));
}

#[test]
fn wrap_left_edge() {
    let mut pc = Pc::new();
    pc.left();
    pc.step();
    assert_eq!(Point { x: 79, y: 0 }, pc.pos);
    pc.right();
    pc.step();
    assert_eq!(Point { x: 0, y: 0 }, pc.pos);
}

#[test]
fn wrap_top_edge() {
    let mut pc = Pc::new();
    pc.up();
    pc.step();
    assert_eq!(Point { x: 0, y: 24 }, pc.pos);
    pc.down();
    pc.step();
    assert_eq!(Point { x: 0, y: 0 }, pc.pos);
}

#[test]
fn pc_rand_direction() {
    let mut pc = Pc::new();
    pc.rand();
    assert_eq!(Point { x: 0, y: 0 }, pc.pos);
    let d = (pc.dir.x, pc.dir.y);
    assert!(d == (1, 0) || d == (-1, 0) || d == (0, 1) || d == (0, -1));
}

#[test]
fn add_wraps_mod_256() {
    let mut p = Program::new(Vec::new());
    p.push(200);
    p.push(100);
    p.add();
    assert_eq!(44, p.pop());
}

#[test]
fn subtract_wraps_mod_256() {
    let mut p = Program::new(Vec::new());
    p.push(3);
    p.push(5);
    p.subtract();
    assert_eq!(254, p.pop());
}

#[test]
fn multiply_wraps_mod_256() {
    let mut p = Program::new(Vec::new());
    p.push(20);
    p.push(20);
    p.multiply();
    assert_eq!(144, p.pop());
}

#[test]
fn pop_empty_yields_zero() {
    let mut p = Program::new(Vec::new());
    assert_eq!(0, p.pop());
    assert_eq!(0, p.pop());
}

#[test]
fn dup_empty_pushes_zero() {
    let mut p = Program::new(Vec::new());
    p.dup();
    assert_eq!(0, p.pop());
    assert_eq!(0, p.pop());
}

#[test]
fn put_get_round_trip() {
    let mut p = Program::new(Vec::new());
    p.push(7);
    p.push(5);
    p.push(3);
    p.put();
    p.push(5);
    p.push(3);
    p.get();
    assert_eq!(7, p.pop());
}

#[test]
fn get_out_of_range_zero() {
    let mut p = Program::new(Vec::new());
    p.push(100);
    p.push(0);
    p.get();
    assert_eq!(0, p.pop());
    p.push(0);
    p.push(25);
    p.get();
    assert_eq!(0, p.pop());
}

#[test]
fn put_out_of_range_ignored() {
    let mut p = Program::new(Vec::new());
    p.push(9);
    p.push(100);
    p.push(0);
    p.put();
    p.push(0);
    p.push(0);
    p.get();
    // the blank grid still holds a space everywhere
    assert_eq!(32, p.pop());
}

#[test]
fn divide_by_zero_pushes_zero() {
    test_io(b"10/.@", &[], b"0 ");
}

#[test]
fn modulo_by_zero_pushes_zero() {
    test_io(b"10%.@", &[], b"0 ");
}

#[test]
fn underflow_arithmetic() {
    test_io(b"+.@", &[], b"0 ");
    test_io(b"5-.@", &[], b"251 ");
    test_io(b"3`.@", &[], b"0 ");
}

#[test]
fn swap_on_singleton() {
    test_io(b"1\\..@", &[], b"0 1 ");
}

#[test]
fn decimal_output_widths() {
    let mut p = Program::new(Vec::new());
    for v in [0u8, 9, 10, 99, 100, 255] {
        p.push(v);
        p.output_value();
    }
    assert_eq!(b"0 9 10 99 100 255 ".as_slice(), p.output().as_slice());
}

#[test]
fn string_mode_pushes_space() {
    test_io(b"\" \",@", &[], b" ");
}

#[test]
fn numeric_input_trimmed() {
    test_io(b"&.@", b" 42 \n", b"42 ");
}

#[test]
fn numeric_input_low_byte() {
    test_io(b"&.@", b"300\n", b"44 ");
    test_io(b"&.@", b"999\n", b"231 ");
}

#[test]
fn numeric_input_lines() {
    test_io(b"&&+.@", b"1\n2\n", b"3 ");
}

#[test]
fn load_truncates_rows() {
    // rows beyond the grid's height are discarded; the 26th row would
    // otherwise shadow the terminate instruction with a printing loop
    let mut source = Vec::new();
    source.push(b'v');
    source.push(b'\n');
    for _ in 0..23 {
        source.push(b'\n');
    }
    source.extend_from_slice(b"@\n1.@");
    test_io(&source, &[], &[]);
}

#[test]
fn load_long_line() {
    // columns beyond the grid's width are discarded and do not bleed
    // into the next row
    let mut source = Vec::new();
    source.push(b'v');
    for _ in 0..84 {
        source.push(b'x');
    }
    source.push(b'\n');
    source.push(b'@');
    test_io(&source, &[], &[]);
}

#[test]
fn load_overlays_previous_program() {
    let mut p = Program::new(Vec::new());
    p.load(b"12+.@");
    p.load(b"3");
    p.run();
    assert_eq!(b"5 ".as_slice(), p.output().as_slice());
}
