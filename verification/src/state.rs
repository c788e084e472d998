//! Mathematical model of the interpreter.
//!
//! A [`State`] holds everything the engine can observe: the grid of byte
//! cells, the counter's position and direction, string mode, the operand
//! stack, the remaining input and the output produced so far. The spec
//! function [`step`] says what one execution step does to such a state;
//! the executable engine in [`crate::program`] is proved to follow it.

use vstd::prelude::*;
use crate::consts::{WIDTH, HEIGHT, AREA};

verus! {

/// Complete observable state of the execution engine.
///
/// `grid` is row-major: the cell at column `x`, row `y` is
/// `grid[y * WIDTH + x]`. `cursor` marks how much of `input` has been
/// consumed.
#[verifier::ext_equal]
pub ghost struct State {
    pub grid: Seq<u8>,
    pub x: int,
    pub y: int,
    pub dx: int,
    pub dy: int,
    pub strmode: bool,
    pub stack: Seq<u8>,
    pub input: Seq<u8>,
    pub cursor: int,
    pub output: Seq<u8>,
}

/// Non-negative remainder: `wrap(v, m)` lies in `[0, m)` whatever the sign
/// of `v`.
pub open spec fn wrap(v: int, m: int) -> int {
    ((v % m) + m) % m
}

/// The direction is one of the four cardinal unit vectors.
pub open spec fn dir_ok(dx: int, dy: int) -> bool {
    (dx == 1 && dy == 0) || (dx == -1 && dy == 0) || (dx == 0 && dy == 1) || (dx == 0 && dy == -1)
}

/// The four directions in a fixed order, used by the random-direction
/// instruction: right, left, down, up.
pub open spec fn dir_of(k: int) -> (int, int) {
    if k == 0 { (1, 0) } else if k == 1 { (-1, 0) } else if k == 2 { (0, 1) } else { (0, -1) }
}

/// Well-formedness: the grid has its fixed size, the counter is inside it,
/// the direction is a unit vector, and the input cursor is inside the input.
pub open spec fn wf(s: State) -> bool {
    &&& s.grid.len() == AREA
    &&& 0 <= s.x < WIDTH
    &&& 0 <= s.y < HEIGHT
    &&& dir_ok(s.dx, s.dy)
    &&& 0 <= s.cursor <= s.input.len()
}

/// The cell under the program counter.
pub open spec fn cell(s: State) -> u8 {
    s.grid[s.y * WIDTH + s.x]
}

/// Bounds-checked read of program space: out-of-range coordinates yield 0.
pub open spec fn space_get(grid: Seq<u8>, x: int, y: int) -> u8 {
    if 0 <= x < WIDTH && 0 <= y < HEIGHT {
        grid[y * WIDTH + x]
    } else {
        0
    }
}

/// Bounds-checked write of program space: out-of-range coordinates change
/// nothing.
pub open spec fn space_put(grid: Seq<u8>, x: int, y: int, v: u8) -> Seq<u8> {
    if 0 <= x < WIDTH && 0 <= y < HEIGHT {
        grid.update(y * WIDTH + x, v)
    } else {
        grid
    }
}

/// Top of the operand stack; an empty stack reads as 0.
pub open spec fn top(s: Seq<u8>) -> u8 {
    if s.len() == 0 { 0 } else { s.last() }
}

/// The stack after one pop; popping an empty stack leaves it empty.
pub open spec fn rest(s: Seq<u8>) -> Seq<u8> {
    if s.len() == 0 { s } else { s.drop_last() }
}

/// The value under the top of the stack (the second value popped).
pub open spec fn second(s: Seq<u8>) -> u8 {
    top(rest(s))
}

/// The stack after a binary instruction: two values popped, `v` pushed.
pub open spec fn binop(s: Seq<u8>, v: u8) -> Seq<u8> {
    rest(rest(s)).push(v)
}

/// Byte addition, wrapping modulo 256.
pub open spec fn add8(a: u8, b: u8) -> u8 {
    ((a + b) % 256) as u8
}

/// Byte subtraction, wrapping modulo 256.
pub open spec fn sub8(a: u8, b: u8) -> u8 {
    ((a - b) % 256) as u8
}

/// Byte multiplication, wrapping modulo 256.
pub open spec fn mul8(a: u8, b: u8) -> u8 {
    ((a * b) % 256) as u8
}

/// Byte division; a zero divisor yields 0 rather than a fault.
pub open spec fn div8(a: u8, b: u8) -> u8 {
    if b == 0 { 0 } else { (a / b) as u8 }
}

/// Byte remainder; a zero divisor yields 0 rather than a fault.
pub open spec fn mod8(a: u8, b: u8) -> u8 {
    if b == 0 { 0 } else { (a % b) as u8 }
}

/// Decimal digits of a byte value, without leading zeros.
pub open spec fn dec_repr(v: u8) -> Seq<u8> {
    if v < 10 {
        seq![(48 + v) as u8]
    } else if v < 100 {
        seq![(48 + v / 10) as u8, (48 + v % 10) as u8]
    } else {
        seq![(48 + v / 100) as u8, (48 + (v / 10) % 10) as u8, (48 + v % 10) as u8]
    }
}

/// ASCII whitespace as the numeric-input parser ignores it at either end
/// of a line.
pub open spec fn is_ws(b: u8) -> bool {
    b == 32 || b == 9 || b == 10 || b == 11 || b == 12 || b == 13
}

/// The sequence with ASCII whitespace stripped from both ends.
pub open spec fn trimmed(s: Seq<u8>) -> Seq<u8>
    decreases s.len(),
{
    if s.len() > 0 && is_ws(s[0]) {
        trimmed(s.skip(1))
    } else if s.len() > 0 && is_ws(s.last()) {
        trimmed(s.drop_last())
    } else {
        s
    }
}

/// True when every byte is an ASCII decimal digit.
pub open spec fn digits_only(s: Seq<u8>) -> bool {
    forall|i: int| 0 <= i < s.len() ==> 48 <= #[trigger] s[i] <= 57
}

/// The low byte of the number the digits denote, accumulated modulo 256.
pub open spec fn dec_val(s: Seq<u8>) -> u8
    decreases s.len(),
{
    if s.len() == 0 {
        0
    } else {
        ((dec_val(s.drop_last()) * 10 + (s.last() - 48)) % 256) as u8
    }
}

/// What the numeric-input instruction makes of one line: the line is
/// trimmed, and a non-empty run of decimal digits gives its value modulo
/// 256; anything else gives 0.
pub open spec fn parse_line(s: Seq<u8>) -> u8 {
    if trimmed(s).len() > 0 && digits_only(trimmed(s)) {
        dec_val(trimmed(s))
    } else {
        0
    }
}

/// Index of the first line feed at or after `pos`, or the input's length
/// when no line feed follows.
pub open spec fn line_end(s: Seq<u8>, pos: int) -> int
    decreases s.len() - pos,
{
    if !(0 <= pos < s.len()) {
        s.len() as int
    } else if s[pos] == 10 {
        pos
    } else {
        line_end(s, pos + 1)
    }
}

/// The input split on line feeds; the final fragment has no terminator.
/// An empty input is one empty line.
pub open spec fn split_lines(src: Seq<u8>) -> Seq<Seq<u8>>
    decreases src.len(),
{
    let e = line_end(src, 0);
    if 0 <= e < src.len() {
        seq![src.subrange(0, e)] + split_lines(src.subrange(e + 1, src.len() as int))
    } else {
        seq![src]
    }
}

/// The grid after the first `k` rows have been overwritten from `lines`:
/// a cell keeps its old value unless its row is among the first `k` lines
/// and its column lies within that line.
pub open spec fn loaded_rows(grid: Seq<u8>, lines: Seq<Seq<u8>>, k: int) -> Seq<u8> {
    Seq::new(
        grid.len(),
        |i: int|
            if i / (WIDTH as int) < k && i / (WIDTH as int) < lines.len()
                && i % (WIDTH as int) < lines[i / (WIDTH as int)].len() {
                lines[i / (WIDTH as int)][i % (WIDTH as int)]
            } else {
                grid[i]
            },
    )
}

/// The grid after loading a source text: rows are the source split on line
/// feeds, rows beyond the grid's height and columns beyond its width are
/// discarded, and uncovered cells keep their old value.
pub open spec fn loaded(grid: Seq<u8>, src: Seq<u8>) -> Seq<u8> {
    loaded_rows(grid, split_lines(src), HEIGHT as int)
}

/// A blank grid: every cell holds the ASCII space character.
pub open spec fn blank_grid() -> Seq<u8> {
    Seq::new(AREA as nat, |i: int| 32u8)
}

/// The engine's state at construction: a blank grid, the counter at the
/// top left corner heading right, string mode off, an empty stack, the
/// given input untouched, and no output.
pub open spec fn initial(input: Seq<u8>) -> State {
    State {
        grid: blank_grid(),
        x: 0,
        y: 0,
        dx: 1,
        dy: 0,
        strmode: false,
        stack: Seq::empty(),
        input: input,
        cursor: 0,
        output: Seq::empty(),
    }
}

/// True when the cell under the counter is the terminate instruction and
/// string mode is off: a step from here reports termination and changes
/// nothing.
pub open spec fn halted(s: State) -> bool {
    !s.strmode && cell(s) == 64
}

/// True when the cell under the counter is the random-direction
/// instruction (and string mode is off): the step's outcome then depends
/// on the random draw.
pub open spec fn is_random(s: State) -> bool {
    !s.strmode && cell(s) == 63
}

/// The state with the counter advanced one cell in its direction, each
/// axis wrapped into the grid (torus topology).
pub open spec fn advanced(s: State) -> State {
    State { x: wrap(s.x + s.dx, WIDTH as int), y: wrap(s.y + s.dy, HEIGHT as int), ..s }
}

/// Effect of dispatching cell value `c` on state `s`, before the counter
/// advances. `r` is the random draw in `[0, 4)`, read only by the
/// random-direction instruction.
pub open spec fn insn(s: State, c: u8, r: int) -> State {
    if s.strmode {
        if c == 34 {
            State { strmode: false, ..s }
        } else {
            State { stack: s.stack.push(c), ..s }
        }
    } else if c == 34 {
        State { strmode: true, ..s }
    } else if 48 <= c <= 57 {
        State { stack: s.stack.push((c - 48) as u8), ..s }
    } else if c == 43 {  // +
        State { stack: binop(s.stack, add8(second(s.stack), top(s.stack))), ..s }
    } else if c == 45 {  // -
        State { stack: binop(s.stack, sub8(second(s.stack), top(s.stack))), ..s }
    } else if c == 42 {  // *
        State { stack: binop(s.stack, mul8(second(s.stack), top(s.stack))), ..s }
    } else if c == 47 {  // /
        State { stack: binop(s.stack, div8(second(s.stack), top(s.stack))), ..s }
    } else if c == 37 {  // %
        State { stack: binop(s.stack, mod8(second(s.stack), top(s.stack))), ..s }
    } else if c == 33 {  // !
        State { stack: rest(s.stack).push(if top(s.stack) == 0 { 1u8 } else { 0u8 }), ..s }
    } else if c == 96 {  // `
        State {
            stack: binop(s.stack, if second(s.stack) > top(s.stack) { 1u8 } else { 0u8 }),
            ..s
        }
    } else if c == 62 {  // >
        State { dx: 1, dy: 0, ..s }
    } else if c == 60 {  // <
        State { dx: -1, dy: 0, ..s }
    } else if c == 94 {  // ^
        State { dx: 0, dy: -1, ..s }
    } else if c == 118 {  // v
        State { dx: 0, dy: 1, ..s }
    } else if c == 63 {  // ?
        State { dx: dir_of(r).0, dy: dir_of(r).1, ..s }
    } else if c == 95 {  // _
        State { stack: rest(s.stack), dx: if top(s.stack) == 0 { 1 } else { -1 }, dy: 0, ..s }
    } else if c == 124 {  // |
        State { stack: rest(s.stack), dx: 0, dy: if top(s.stack) == 0 { 1 } else { -1 }, ..s }
    } else if c == 58 {  // :
        State { stack: s.stack.push(top(s.stack)), ..s }
    } else if c == 92 {  // \
        State { stack: rest(rest(s.stack)).push(top(s.stack)).push(second(s.stack)), ..s }
    } else if c == 36 {  // $
        State { stack: rest(s.stack), ..s }
    } else if c == 46 {  // .
        State {
            stack: rest(s.stack),
            output: s.output + dec_repr(top(s.stack)) + seq![32u8],
            ..s
        }
    } else if c == 44 {  // ,
        State { stack: rest(s.stack), output: s.output.push(top(s.stack)), ..s }
    } else if c == 35 {  // #
        advanced(s)
    } else if c == 103 {  // g
        State {
            stack: binop(s.stack, space_get(s.grid, second(s.stack) as int, top(s.stack) as int)),
            ..s
        }
    } else if c == 112 {  // p
        State {
            grid: space_put(
                s.grid,
                second(s.stack) as int,
                top(s.stack) as int,
                top(rest(rest(s.stack))),
            ),
            stack: rest(rest(rest(s.stack))),
            ..s
        }
    } else if c == 38 {  // &
        State {
            stack: s.stack.push(parse_line(s.input.subrange(s.cursor, line_end(s.input, s.cursor)))),
            cursor: if line_end(s.input, s.cursor) < s.input.len() {
                line_end(s.input, s.cursor) + 1
            } else {
                line_end(s.input, s.cursor)
            },
            ..s
        }
    } else if c == 126 {  // ~
        if s.cursor < s.input.len() {
            State { stack: s.stack.push(s.input[s.cursor]), cursor: s.cursor + 1, ..s }
        } else {
            State { stack: s.stack.push(255u8), ..s }
        }
    } else {
        s
    }
}

/// One full execution step of a non-halted state: dispatch the cell under
/// the counter, then advance the counter.
pub open spec fn step(s: State, r: int) -> State {
    advanced(insn(s, cell(s), r))
}

/// `b` can be reached from `a` in exactly `n` steps, for some run of
/// random draws.
pub open spec fn reachable(a: State, b: State, n: nat) -> bool
    decreases n,
{
    if n == 0 {
        a == b
    } else {
        !halted(a) && exists|k: int| 0 <= k < 4 && reachable(step(a, k), b, (n - 1) as nat)
    }
}

/// Wrapping never escapes the bounds: for any position and displacement,
/// the wrapped coordinate lies in `[0, m)`.
pub proof fn lemma_wrap_in_bounds(v: int, m: int)
    requires
        m > 0,
    ensures
        0 <= wrap(v, m) < m,
{
}

/// A read outside program space yields 0.
pub proof fn lemma_space_get_out_of_range(grid: Seq<u8>, x: int, y: int)
    requires
        !(0 <= x < WIDTH && 0 <= y < HEIGHT),
    ensures
        space_get(grid, x, y) == 0,
{
}

/// A write outside program space changes nothing.
pub proof fn lemma_space_put_out_of_range(grid: Seq<u8>, x: int, y: int, v: u8)
    requires
        !(0 <= x < WIDTH && 0 <= y < HEIGHT),
    ensures
        space_put(grid, x, y, v) == grid,
{
}

/// Round trip through program space: a value written inside the grid is
/// read back exactly.
pub proof fn lemma_space_put_get(grid: Seq<u8>, x: int, y: int, v: u8)
    requires
        grid.len() == AREA,
        0 <= x < WIDTH,
        0 <= y < HEIGHT,
    ensures
        space_get(space_put(grid, x, y, v), x, y) == v,
{
    assert(0 <= y * WIDTH + x < AREA) by (nonlinear_arith)
        requires 0 <= x < WIDTH && 0 <= y < HEIGHT && AREA == WIDTH * HEIGHT;
}

/// A write inside program space touches no other cell.
pub proof fn lemma_space_put_frame(grid: Seq<u8>, x: int, y: int, v: u8, x2: int, y2: int)
    requires
        grid.len() == AREA,
        0 <= x2 < WIDTH,
        0 <= y2 < HEIGHT,
        (x2, y2) != (x, y),
    ensures
        space_get(space_put(grid, x, y, v), x2, y2) == space_get(grid, x2, y2),
{
    if 0 <= x < WIDTH && 0 <= y < HEIGHT {
        assert(y * WIDTH + x != y2 * WIDTH + x2) by (nonlinear_arith)
            requires
                0 <= x < WIDTH && 0 <= y < HEIGHT && 0 <= x2 < WIDTH && 0 <= y2 < HEIGHT
                    && (x != x2 || y != y2);
        assert(0 <= y2 * WIDTH + x2 < AREA) by (nonlinear_arith)
            requires 0 <= x2 < WIDTH && 0 <= y2 < HEIGHT && AREA == WIDTH * HEIGHT;
    }
}

/// A step appended to a reachable run is still a reachable run.
pub proof fn lemma_reachable_extend(a: State, b: State, n: nat, k: int)
    requires
        reachable(a, b, n),
        !halted(b),
        0 <= k < 4,
    ensures
        reachable(a, step(b, k), n + 1),
    decreases n,
{
    if n == 0 {
        assert(reachable(step(b, k), step(b, k), 0));
    } else {
        let k0 = choose|k0: int| 0 <= k0 < 4 && reachable(step(a, k0), b, (n - 1) as nat);
        lemma_reachable_extend(step(a, k0), b, (n - 1) as nat, k);
    }
}

/// Positions, bounds and the first line feed: `line_end` lies between
/// `pos` and the input's length, points at a line feed when it is not the
/// length, and no line feed comes before it.
pub proof fn lemma_line_end(s: Seq<u8>, pos: int)
    requires
        0 <= pos <= s.len(),
    ensures
        pos <= line_end(s, pos) <= s.len(),
        line_end(s, pos) < s.len() ==> s[line_end(s, pos)] == 10,
        forall|j: int| pos <= j < line_end(s, pos) ==> s[j] != 10,
    decreases s.len() - pos,
{
    if pos < s.len() && s[pos] != 10 {
        lemma_line_end(s, pos + 1);
    }
}

/// `line_end` is the only index that a forward scan for a line feed can
/// stop at.
pub proof fn lemma_line_end_unique(s: Seq<u8>, pos: int, e: int)
    requires
        0 <= pos <= e <= s.len(),
        forall|j: int| pos <= j < e ==> s[j] != 10,
        e < s.len() ==> s[e] == 10,
    ensures
        e == line_end(s, pos),
{
    lemma_line_end(s, pos);
}

/// Scanning whitespace off both ends finds exactly `trimmed`: if
/// everything outside `[lo, hi)` is whitespace and neither end of
/// `[lo, hi)` is, then that window is the trimmed sequence.
pub proof fn lemma_trimmed_is(s: Seq<u8>, lo: int, hi: int)
    requires
        0 <= lo <= hi <= s.len(),
        forall|j: int| 0 <= j < lo ==> is_ws(s[j]),
        forall|j: int| hi <= j < s.len() ==> is_ws(s[j]),
        lo < hi ==> !is_ws(s[lo]),
        lo < hi ==> !is_ws(s[hi - 1]),
    ensures
        trimmed(s) =~= s.subrange(lo, hi),
    decreases s.len(),
{
    if s.len() == 0 {
    } else if is_ws(s[0]) {
        let t = s.skip(1);
        if lo > 0 {
            lemma_trimmed_is(t, lo - 1, hi - 1);
            assert(t.subrange(lo - 1, hi - 1) =~= s.subrange(lo, hi));
        } else {
            assert(lo == hi);
            lemma_trimmed_is(t, 0, 0);
        }
    } else if is_ws(s.last()) {
        assert(hi < s.len());
        let t = s.drop_last();
        lemma_trimmed_is(t, lo, hi);
        assert(t.subrange(lo, hi) =~= s.subrange(lo, hi));
    } else {
        assert(lo == 0 && hi == s.len());
        assert(s.subrange(0, s.len() as int) =~= s);
    }
}

} // verus!

