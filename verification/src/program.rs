//! Program space, counter, stack and execution.

use vstd::prelude::*;
use crate::consts::{WIDTH, HEIGHT, AREA};
use crate::pc::Pc;
use crate::state::{
    State, add8, binop, blank_grid, cell, dec_repr, dec_val, digits_only, div8, halted, initial,
    insn, is_random, is_ws, lemma_line_end_unique, lemma_reachable_extend, lemma_trimmed_is,
    line_end, loaded, loaded_rows, mod8, mul8, parse_line, reachable, rest, second, space_get,
    space_put, split_lines, sub8, top, trimmed,
};

verus! {

/// ASCII whitespace as the numeric-input parser skips it.
fn is_ws_byte(b: u8) -> (r: bool)
    ensures
        r == is_ws(b),
{
    b == 32 || b == 9 || b == 10 || b == 11 || b == 12 || b == 13
}

/// Program space, counter, stack and the byte channels.
///
/// The input is a byte buffer handed over at construction; the output is
/// a byte buffer that grows as the program runs and can be read back
/// afterwards.
pub struct Program {
    data: Vec<u8>,
    pc: Pc,
    strmode: bool,
    stack: Vec<u8>,
    input: Vec<u8>,
    cursor: usize,
    output: Vec<u8>,
}

impl View for Program {
    type V = State;

    closed spec fn view(&self) -> State {
        State {
            grid: self.data@,
            x: self.pc@.x,
            y: self.pc@.y,
            dx: self.pc@.dx,
            dy: self.pc@.dy,
            strmode: self.strmode,
            stack: self.stack@,
            input: self.input@,
            cursor: self.cursor as int,
            output: self.output@,
        }
    }
}

impl Program {
    /// The engine's state is well formed as [`crate::state::wf`] has it.
    pub open spec fn wf(&self) -> bool {
        crate::state::wf(self@)
    }

    /// Creates a blank `Program` holding the given input bytes.
    pub fn new(input: Vec<u8>) -> (r: Program)
        ensures
            r@ == initial(input@),
            r.wf(),
    {
        let mut data: Vec<u8> = Vec::new();
        let mut i: usize = 0;
        while i < AREA
            invariant
                i <= AREA,
                data@.len() == i,
                forall|j: int| 0 <= j < i ==> data@[j] == 32u8,
            decreases AREA - i,
        {
            data.push(32);
            i += 1;
        }
        proof {
            assert(data@ =~= blank_grid());
        }
        Program {
            data,
            pc: Pc::new(),
            strmode: false,
            stack: Vec::new(),
            input,
            cursor: 0,
            output: Vec::new(),
        }
    }

    /// The output produced so far.
    pub fn output(&self) -> (r: &Vec<u8>)
        ensures
            r@ == self@.output,
    {
        &self.output
    }

    /// Pushes a cell value onto the operand stack.
    pub fn push(&mut self, v: u8)
        ensures
            final(self)@ == (State { stack: old(self)@.stack.push(v), ..old(self)@ }),
    {
        self.stack.push(v);
    }

    /// Pops a cell value off the operand stack; an empty stack yields 0
    /// and stays empty.
    pub fn pop(&mut self) -> (v: u8)
        ensures
            v == top(old(self)@.stack),
            final(self)@ == (State { stack: rest(old(self)@.stack), ..old(self)@ }),
            old(self)@.stack.len() == 0 ==> v == 0 && final(self)@ == old(self)@,
    {
        match self.stack.pop() {
            Some(v) => v,
            None => 0,
        }
    }

    /// Toggles string mode.
    pub fn toggle_strmode(&mut self)
        ensures
            final(self)@ == (State { strmode: !old(self)@.strmode, ..old(self)@ }),
    {
        self.strmode = !self.strmode;
    }

    /// Pops two values and pushes their sum, wrapping modulo 256.
    pub fn add(&mut self)
        ensures
            final(self)@ == (State {
                stack: binop(
                    old(self)@.stack,
                    add8(second(old(self)@.stack), top(old(self)@.stack)),
                ),
                ..old(self)@
            }),
    {
        let b = self.pop();
        let a = self.pop();
        self.push(((a as u16 + b as u16) % 256) as u8);
    }

    /// Pops two values and pushes their difference (second popped minus
    /// first popped), wrapping modulo 256.
    pub fn subtract(&mut self)
        ensures
            final(self)@ == (State {
                stack: binop(
                    old(self)@.stack,
                    sub8(second(old(self)@.stack), top(old(self)@.stack)),
                ),
                ..old(self)@
            }),
    {
        let b = self.pop();
        let a = self.pop();
        self.push(((256 + a as u16 - b as u16) % 256) as u8);
    }

    /// Pops two values and pushes their product, wrapping modulo 256.
    pub fn multiply(&mut self)
        ensures
            final(self)@ == (State {
                stack: binop(
                    old(self)@.stack,
                    mul8(second(old(self)@.stack), top(old(self)@.stack)),
                ),
                ..old(self)@
            }),
    {
        let b = self.pop();
        let a = self.pop();
        proof {
            assert((a as int) * (b as int) <= 255 * 255) by (nonlinear_arith)
                requires a as int <= 255 && b as int <= 255;
        }
        self.push(((a as u16 * b as u16) % 256) as u8);
    }

    /// Pops two values and pushes their quotient (second popped divided by
    /// first popped); a zero divisor pushes 0.
    pub fn divide(&mut self)
        ensures
            final(self)@ == (State {
                stack: binop(
                    old(self)@.stack,
                    div8(second(old(self)@.stack), top(old(self)@.stack)),
                ),
                ..old(self)@
            }),
    {
        let b = self.pop();
        let a = self.pop();
        self.push(if b == 0 { 0 } else { a / b });
    }

    /// Pops two values and pushes the remainder of the second popped by
    /// the first popped; a zero divisor pushes 0.
    pub fn modulo(&mut self)
        ensures
            final(self)@ == (State {
                stack: binop(
                    old(self)@.stack,
                    mod8(second(old(self)@.stack), top(old(self)@.stack)),
                ),
                ..old(self)@
            }),
    {
        let b = self.pop();
        let a = self.pop();
        self.push(if b == 0 { 0 } else { a % b });
    }

    /// Pops a value and pushes 1 if it is zero, else 0.
    pub fn not(&mut self)
        ensures
            final(self)@ == (State {
                stack: rest(old(self)@.stack).push(
                    if top(old(self)@.stack) == 0 { 1u8 } else { 0u8 },
                ),
                ..old(self)@
            }),
    {
        let t = self.pop();
        self.push(if t == 0 { 1 } else { 0 });
    }

    /// Pops two values and pushes 1 if the second popped is greater than
    /// the first popped, else 0.
    pub fn greater(&mut self)
        ensures
            final(self)@ == (State {
                stack: binop(
                    old(self)@.stack,
                    if second(old(self)@.stack) > top(old(self)@.stack) { 1u8 } else { 0u8 },
                ),
                ..old(self)@
            }),
    {
        let b = self.pop();
        let a = self.pop();
        self.push(if a > b { 1 } else { 0 });
    }

    /// Pops a value; zero sends the counter right, anything else left.
    pub fn horizontal_if(&mut self)
        ensures
            final(self)@ == (State {
                stack: rest(old(self)@.stack),
                dx: if top(old(self)@.stack) == 0 { 1int } else { -1int },
                dy: 0,
                ..old(self)@
            }),
    {
        if self.pop() == 0 {
            self.pc.right();
        } else {
            self.pc.left();
        }
    }

    /// Pops a value; zero sends the counter down, anything else up.
    pub fn vertical_if(&mut self)
        ensures
            final(self)@ == (State {
                stack: rest(old(self)@.stack),
                dx: 0,
                dy: if top(old(self)@.stack) == 0 { 1int } else { -1int },
                ..old(self)@
            }),
    {
        if self.pop() == 0 {
            self.pc.down();
        } else {
            self.pc.up();
        }
    }

    /// Pushes a copy of the top of the stack; duplicating an empty stack
    /// pushes a second 0.
    pub fn dup(&mut self)
        ensures
            final(self)@ == (State {
                stack: old(self)@.stack.push(top(old(self)@.stack)),
                ..old(self)@
            }),
            old(self)@.stack.len() == 0 ==> final(self)@.stack =~= seq![0u8],
    {
        let t = match self.stack.last() {
            Some(t) => *t,
            None => 0,
        };
        self.push(t);
    }

    /// Swaps the top two stack cells, reading missing cells as 0.
    pub fn swap(&mut self)
        ensures
            final(self)@ == (State {
                stack: rest(rest(old(self)@.stack)).push(top(old(self)@.stack)).push(
                    second(old(self)@.stack),
                ),
                ..old(self)@
            }),
    {
        let a = self.pop();
        let b = self.pop();
        self.push(a);
        self.push(b);
    }

    /// Pops a value and writes its decimal representation followed by one
    /// space to the output.
    pub fn output_value(&mut self)
        ensures
            final(self)@ == (State {
                stack: rest(old(self)@.stack),
                output: old(self)@.output + dec_repr(top(old(self)@.stack)) + seq![32u8],
                ..old(self)@
            }),
    {
        let v = self.pop();
        if v >= 100 {
            self.output.push(48 + v / 100);
            self.output.push(48 + (v / 10) % 10);
            self.output.push(48 + v % 10);
        } else if v >= 10 {
            self.output.push(48 + v / 10);
            self.output.push(48 + v % 10);
        } else {
            self.output.push(48 + v);
        }
        self.output.push(32);
        proof {
            assert(self.output@ =~= old(self)@.output + dec_repr(top(old(self)@.stack))
                + seq![32u8]);
        }
    }

    /// Pops a value and writes it as a single raw byte to the output.
    pub fn output_ascii(&mut self)
        ensures
            final(self)@ == (State {
                stack: rest(old(self)@.stack),
                output: old(self)@.output.push(top(old(self)@.stack)),
                ..old(self)@
            }),
    {
        let v = self.pop();
        self.output.push(v);
    }

    /// Pops y then x and pushes the grid cell at `(x, y)`; out-of-range
    /// coordinates push 0.
    pub fn get(&mut self)
        requires
            old(self).wf(),
        ensures
            final(self)@ == (State {
                stack: binop(
                    old(self)@.stack,
                    space_get(
                        old(self)@.grid,
                        second(old(self)@.stack) as int,
                        top(old(self)@.stack) as int,
                    ),
                ),
                ..old(self)@
            }),
    {
        let y = self.pop();
        let x = self.pop();
        if (x as usize) < WIDTH && (y as usize) < HEIGHT {
            let v = self.data[(y as usize) * WIDTH + (x as usize)];
            self.push(v);
        } else {
            self.push(0);
        }
    }

    /// Pops y, x, then a value, and writes the value into the grid cell at
    /// `(x, y)`; out-of-range coordinates change nothing.
    pub fn put(&mut self)
        requires
            old(self).wf(),
        ensures
            final(self)@ == (State {
                grid: space_put(
                    old(self)@.grid,
                    second(old(self)@.stack) as int,
                    top(old(self)@.stack) as int,
                    top(rest(rest(old(self)@.stack))),
                ),
                stack: rest(rest(rest(old(self)@.stack))),
                ..old(self)@
            }),
            final(self).wf(),
    {
        let y = self.pop();
        let x = self.pop();
        let v = self.pop();
        if (x as usize) < WIDTH && (y as usize) < HEIGHT {
            self.data.set((y as usize) * WIDTH + (x as usize), v);
        }
    }

    /// Reads one raw byte from the input and pushes it; at end of input
    /// pushes the end-of-stream sentinel 255.
    pub fn input_ascii(&mut self)
        requires
            old(self).wf(),
        ensures
            final(self)@ == (if old(self)@.cursor < old(self)@.input.len() {
                State {
                    stack: old(self)@.stack.push(old(self)@.input[old(self)@.cursor]),
                    cursor: old(self)@.cursor + 1,
                    ..old(self)@
                }
            } else {
                State { stack: old(self)@.stack.push(255u8), ..old(self)@ }
            }),
            final(self).wf(),
    {
        if self.cursor < self.input.len() {
            let b = self.input[self.cursor];
            self.cursor = self.cursor + 1;
            self.push(b);
        } else {
            self.push(255);
        }
    }

    /// Reads one line of text from the input, consuming its terminator,
    /// parses it as a run of decimal digits with optional surrounding
    /// whitespace, and pushes the value's low byte; a malformed line or
    /// end of input pushes 0.
    #[verifier::loop_isolation(false)]
    pub fn input_value(&mut self)
        requires
            old(self).wf(),
        ensures
            final(self)@ == (State {
                stack: old(self)@.stack.push(
                    parse_line(
                        old(self)@.input.subrange(
                            old(self)@.cursor,
                            line_end(old(self)@.input, old(self)@.cursor),
                        ),
                    ),
                ),
                cursor: if line_end(old(self)@.input, old(self)@.cursor)
                    < old(self)@.input.len() {
                    line_end(old(self)@.input, old(self)@.cursor) + 1
                } else {
                    line_end(old(self)@.input, old(self)@.cursor)
                },
                ..old(self)@
            }),
            final(self).wf(),
    {
        let n = self.input.len();
        let c0 = self.cursor;
        let mut e: usize = c0;
        while e < n && self.input[e] != 10
            invariant
                c0 <= e <= n,
                forall|j: int| c0 <= j < e ==> self.input@[j] != 10,
            decreases n - e,
        {
            e += 1;
        }
        proof {
            lemma_line_end_unique(self.input@, c0 as int, e as int);
        }
        let ghost line = self.input@.subrange(c0 as int, e as int);
        let mut lo: usize = c0;
        let mut hi: usize = e;
        while lo < hi && is_ws_byte(self.input[lo])
            invariant
                c0 <= lo <= hi,
                forall|j: int| c0 <= j < lo ==> is_ws(self.input@[j]),
            decreases hi - lo,
        {
            lo += 1;
        }
        while hi > lo && is_ws_byte(self.input[hi - 1])
            invariant
                lo <= hi <= e,
                forall|j: int| hi <= j < e ==> is_ws(self.input@[j]),
                lo < hi ==> !is_ws(self.input@[lo as int]),
            decreases hi,
        {
            hi -= 1;
        }
        proof {
            lemma_trimmed_is(line, lo - c0, hi - c0);
            assert(trimmed(line) =~= self.input@.subrange(lo as int, hi as int));
        }
        let ghost tr = self.input@.subrange(lo as int, hi as int);
        let mut acc: u8 = 0;
        let mut ok: bool = true;
        let mut i: usize = lo;
        while i < hi
            invariant
                lo <= i <= hi,
                ok ==> digits_only(tr.take(i - lo)) && acc == dec_val(tr.take(i - lo)),
                !ok ==> !digits_only(tr),
            decreases hi - i,
        {
            let b = self.input[i];
            if b < 48 || b > 57 {
                proof {
                    assert(tr[i - lo] == b);
                    assert(!digits_only(tr));
                }
                ok = false;
            } else if ok {
                proof {
                    assert(tr.take(i - lo + 1).drop_last() =~= tr.take(i - lo));
                    assert(tr.take(i - lo + 1).last() == b);
                }
                acc = (((acc as u16) * 10 + (b - 48) as u16) % 256) as u8;
            }
            i += 1;
        }
        let value = if lo < hi && ok { acc } else { 0 };
        proof {
            assert(tr.take(hi - lo) =~= tr);
            assert(value == parse_line(line));
        }
        self.cursor = if e < n { e + 1 } else { e };
        self.push(value);
    }

    /// Executes the next instruction, returning true if execution should
    /// continue.
    ///
    /// Unless the cell under the counter is the terminate instruction,
    /// the new state is [`crate::state::step`] of the old one for some
    /// random draw, and for draw 0 in particular whenever the cell is not
    /// the random-direction instruction; the terminate instruction
    /// reports a stop and changes nothing.
    pub fn step(&mut self) -> (more: bool)
        requires
            old(self).wf(),
        ensures
            final(self).wf(),
            more == !halted(old(self)@),
            halted(old(self)@) ==> final(self)@ == old(self)@,
            !halted(old(self)@) ==> exists|k: int|
                0 <= k < 4 && final(self)@ == #[trigger] crate::state::step(old(self)@, k),
            !halted(old(self)@) && !is_random(old(self)@) ==> final(self)@
                == crate::state::step(old(self)@, 0),
    {
        let x = self.pc.pos.x as usize;
        let y = self.pc.pos.y as usize;
        let c = self.data[y * WIDTH + x];
        proof {
            assert(c == cell(old(self)@));
        }
        let ghost kk: int = 0;
        if self.strmode {
            if c == 34 {
                self.toggle_strmode();
            } else {
                self.push(c);
            }
        } else if c == 64 {
            // @
            return false;
        } else if c == 34 {
            // "
            self.toggle_strmode();
        } else if 48 <= c && c <= 57 {
            // 0-9
            self.push(c - 48);
        } else if c == 43 {
            self.add();
        } else if c == 45 {
            self.subtract();
        } else if c == 42 {
            self.multiply();
        } else if c == 47 {
            self.divide();
        } else if c == 37 {
            self.modulo();
        } else if c == 33 {
            self.not();
        } else if c == 96 {
            self.greater();
        } else if c == 62 {
            self.pc.right();
        } else if c == 60 {
            self.pc.left();
        } else if c == 94 {
            self.pc.up();
        } else if c == 118 {
            self.pc.down();
        } else if c == 63 {
            // ?
            self.pc.rand();
            proof {
                kk = choose|k: int|
                    #![trigger crate::state::dir_of(k)]
                    0 <= k < 4 && self.pc@ == (crate::pc::PcState {
                        dx: crate::state::dir_of(k).0,
                        dy: crate::state::dir_of(k).1,
                        ..old(self).pc@
                    });
            }
        } else if c == 95 {
            self.horizontal_if();
        } else if c == 124 {
            self.vertical_if();
        } else if c == 58 {
            self.dup();
        } else if c == 92 {
            self.swap();
        } else if c == 36 {
            // $
            self.pop();
        } else if c == 46 {
            self.output_value();
        } else if c == 44 {
            self.output_ascii();
        } else if c == 35 {
            // #
            self.pc.step();
        } else if c == 103 {
            self.get();
        } else if c == 112 {
            self.put();
        } else if c == 38 {
            self.input_value();
        } else if c == 126 {
            self.input_ascii();
        } else {
            // any other byte: no-op
        }
        proof {
            assert(0 <= kk < 4 && self@ == insn(old(self)@, c, kk));
        }
        self.pc.step();
        proof {
            assert(self@ == crate::state::step(old(self)@, kk));
        }
        true
    }

    /// Runs the program to completion. Programs may never complete: a
    /// program with no terminate instruction runs until the driving
    /// loop's immense step budget (`u64::MAX` steps) is spent, which
    /// keeps the loop provably finite.
    ///
    /// On return the final state was reached from the starting state by
    /// stepping, and it is halted unless the whole budget went.
    #[verifier::loop_isolation(false)]
    pub fn run(&mut self)
        requires
            old(self).wf(),
        ensures
            final(self).wf(),
            exists|n: nat|
                #[trigger] reachable(old(self)@, final(self)@, n) && (halted(final(self)@)
                    || n >= u64::MAX),
    {
        let mut steps: u64 = 0;
        let mut more: bool = true;
        let ghost mut n: nat = 0;
        while more && steps < u64::MAX
            invariant
                self.wf(),
                reachable(old(self)@, self@, n),
                more ==> n == steps,
                !more ==> halted(self@),
            decreases u64::MAX - steps,
        {
            let ghost pre = self@;
            more = self.step();
            proof {
                if !halted(pre) {
                    let k = choose|k: int|
                        0 <= k < 4 && self@ == #[trigger] crate::state::step(pre, k);
                    lemma_reachable_extend(old(self)@, pre, n, k);
                    n = n + 1;
                }
            }
            steps = steps + 1;
        }
    }

    /// Loads a program from ASCII bytes: the source is split on line-feed
    /// bytes into rows, rows beyond the grid's height and columns beyond
    /// its width are silently discarded, and cells the source does not
    /// cover keep their value.
    #[verifier::loop_isolation(false)]
    pub fn load(&mut self, source: &[u8])
        requires
            old(self).wf(),
        ensures
            final(self)@ == (State { grid: loaded(old(self)@.grid, source@), ..old(self)@ }),
            final(self).wf(),
    {
        let ghost g0 = self.data@;
        let ghost lines = split_lines(source@);
        let n = source.len();
        proof {
            assert(self.data@ =~= loaded_rows(g0, lines, 0));
            assert(source@.subrange(0, n as int) =~= source@);
            assert(lines.skip(0) =~~= lines);
        }
        let mut start: usize = 0;
        let mut y: usize = 0;
        let mut more: bool = true;
        while more && y < HEIGHT
            invariant
                y <= HEIGHT,
                start <= n,
                self.pc == old(self).pc,
                self.strmode == old(self).strmode,
                self.stack == old(self).stack,
                self.input == old(self).input,
                self.cursor == old(self).cursor,
                self.output == old(self).output,
                self.data@.len() == AREA,
                more ==> y < lines.len(),
                more ==> split_lines(source@.subrange(start as int, n as int)) =~~= lines.skip(
                    y as int,
                ),
                more ==> self.data@ =~= loaded_rows(g0, lines, y as int),
                !more ==> self.data@ =~= loaded_rows(g0, lines, HEIGHT as int),
            decreases n - start, (if more { 1int } else { 0int }),
        {
            let ghost tail = source@.subrange(start as int, n as int);
            let mut e: usize = start;
            while e < n && source[e] != 10
                invariant
                    start <= e <= n,
                    forall|j: int| start <= j < e ==> source@[j] != 10,
                decreases n - e,
            {
                e += 1;
            }
            proof {
                lemma_line_end_unique(source@, start as int, e as int);
                lemma_line_end_unique(tail, 0, (e - start) as int);
                assert(tail.subrange(0, (e - start) as int) =~= source@.subrange(
                    start as int,
                    e as int,
                ));
                if e < n {
                    assert(split_lines(tail) == seq![tail.subrange(0, (e - start) as int)]
                        + split_lines(tail.subrange((e - start + 1) as int, tail.len() as int)));
                    assert(split_lines(tail)[0] == tail.subrange(0, (e - start) as int));
                } else {
                    assert(split_lines(tail) == seq![tail]);
                    assert(split_lines(tail)[0] == tail);
                    assert(tail =~= source@.subrange(start as int, e as int));
                }
                assert(lines.skip(y as int)[0] == lines[y as int]);
                assert(lines[y as int] =~= source@.subrange(start as int, e as int));
            }
            let limit = if e - start < WIDTH { e - start } else { WIDTH };
            let mut x: usize = 0;
            while x < limit
                invariant
                    x <= limit,
                    limit <= WIDTH,
                    limit <= e - start,
                    start <= e <= n,
                    y < HEIGHT,
                    self.pc == old(self).pc,
                    self.strmode == old(self).strmode,
                    self.stack == old(self).stack,
                    self.input == old(self).input,
                    self.cursor == old(self).cursor,
                    self.output == old(self).output,
                    self.data@.len() == AREA,
                    lines[y as int] == source@.subrange(start as int, e as int),
                    forall|i: int|
                        0 <= i < AREA ==> self.data@[i] == (if i / (WIDTH as int) == y
                            && i % (WIDTH as int) < x {
                            lines[y as int][i % (WIDTH as int)]
                        } else {
                            loaded_rows(g0, lines, y as int)[i]
                        }),
                decreases limit - x,
            {
                proof {
                    assert((y * WIDTH + x) / (WIDTH as int) == y && (y * WIDTH + x) % (
                    WIDTH as int) == x && y * WIDTH + x < AREA) by (nonlinear_arith)
                        requires
                            0 <= x < WIDTH && 0 <= y < HEIGHT && AREA == WIDTH * HEIGHT;
                }
                let v = source[start + x];
                self.data.set(y * WIDTH + x, v);
                x += 1;
            }
            proof {
                assert(self.data@ =~= loaded_rows(g0, lines, (y + 1) as int));
            }
            if e == n {
                more = false;
                proof {
                    assert(lines.len() == y + 1);
                    assert(self.data@ =~= loaded_rows(g0, lines, HEIGHT as int));
                }
            } else {
                proof {
                    let y0 = y as int;
                    let newtail = source@.subrange((e + 1) as int, n as int);
                    assert(tail.subrange((e - start + 1) as int, tail.len() as int) =~= newtail);
                    assert(lines.skip(y0) =~~= seq![source@.subrange(start as int, e as int)]
                        + split_lines(newtail));
                    assert forall|j: int| 0 <= j < split_lines(newtail).len() implies
                        #[trigger] split_lines(newtail)[j] == lines.skip(y0 + 1)[j] by {
                        assert(split_lines(newtail)[j] == lines.skip(y0)[j + 1]);
                        assert(lines.skip(y0)[j + 1] == lines[y0 + 1 + j]);
                    }
                    assert(split_lines(newtail) =~~= lines.skip(y0 + 1));
                    assert(split_lines(newtail).len() >= 1);
                }
                start = e + 1;
                y += 1;
            }
        }
        proof {
            assert(self.data@ =~= loaded_rows(g0, lines, HEIGHT as int));
            assert(self@ == (State { grid: loaded(old(self)@.grid, source@), ..old(self)@ }));
        }
    }
}

} // verus!
