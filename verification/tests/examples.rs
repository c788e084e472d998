use befrust::program::Program;

fn test_io(source: &[u8], input: &[u8], expected: &[u8]) {
    let mut p = Program::new(input.to_vec());
    p.load(source);
    p.run();
    assert_eq!(expected, p.output().as_slice());
}

#[test]
fn examples_hello_world() {
    test_io(b"\"!dlroW ,olleH\">:#,_@", &[], b"Hello, World!");
}

#[test]
fn examples_cat() {
    test_io(b"~:1+!#@_,", b"cat", b"cat");
}

#[test]
fn examples_factorial() {
    // &>:1-:v v *_$.@
    //  ^    _$>\:^
    test_io(b"&>:1-:v v *_$.@\n ^    _$>\\:^", b"5\n", b"120 ");
}

#[test]
fn examples_quine() {
    let quine = b"01->1# +# :# 0# g# ,# :# 5# 8# *# 4# +# -# _@";
    test_io(quine, &[], quine);
}
