//! The machine state, its invariant, the program loader and the dispatch
//! loop.
//!
//! The state is a register file of eight 32-bit words, a table of segments
//! (segment 0 is the program), a LIFO free list of segment identifiers, the
//! watermark of the highest identifier ever minted, and a program counter.
//! The dispatch loop is driven by [`Effect`] values: `Output` and `Input`
//! name the byte traffic the caller must perform, `Halt` is the one clean
//! exit, and `Trapped` reports a fatal error, after which the state is left
//! as it was.

use vstd::prelude::*;
use crate::instructs::{
    add32, cond_move, cond_move_post, div, div32, get, input, load_prog, load_prog_post,
    load_val, map_post, map_seg, mul, mul32, nand, nand32, opcode_of, output, reg_a, reg_b, reg_c,
    reg_l, seg_load, seg_load_post, seg_store, seg_store_post, unmap_post, unmap_seg, val_l,
    arith_post, Field,
};

verus! {

/// A fatal error: the architecture defines no recovery, so the dispatch
/// loop stops and reports which condition was hit.
#[derive(Clone, Copy, PartialEq, Eq, Structural, Debug)]
pub enum Trap {
    /// The fetched word's opcode is not one of the fourteen defined.
    UndefinedOpcode,
    /// Divide with `R[c] = 0`.
    DivideByZero,
    /// The program counter fell outside segment 0.
    BadFetch,
    /// A segmented access named an identifier that is not live, or an
    /// offset outside the segment.
    BadSegment,
    /// Unmap of segment 0.
    UnmapZero,
    /// Unmap of an identifier that is already free.
    UnmapFree,
    /// No identifier is free and the watermark cannot grow further.
    SegmentOverflow,
}

/// What one executed instruction asks of the caller.
#[derive(Clone, Copy, PartialEq, Eq, Structural, Debug)]
pub enum Effect {
    /// Go on with the next instruction.
    Next,
    /// Clean termination.
    Halt,
    /// Write this byte to the output stream, then go on.
    Output(u8),
    /// Read a byte from the input stream and hand it to `input`, then go on.
    Input,
    /// Fatal error; the state is unchanged.
    Trapped(Trap),
}

/// How a complete run ended.
#[derive(Clone, Copy, PartialEq, Eq, Structural, Debug)]
pub enum Status {
    /// A halt instruction executed.
    Halted,
    /// A fatal error ended the run.
    Trapped(Trap),
    /// The step budget ran out first; the machine can keep going.
    Running,
}

/// The machine: registers, segmented memory, free identifiers, watermark
/// and program counter.
pub struct Vm {
    pub registers: Vec<u32>,
    pub memory: Vec<Vec<u32>>,
    pub unmapped_segs: Vec<usize>,
    pub max_mapped_seg: usize,
    pub prog_count: u32,
}

/// A sequence of `n` zeroed words.
pub open spec fn zero_seq(n: nat) -> Seq<u32> {
    Seq::new(n, |i: int| 0u32)
}

impl Vm {
    /// The memory as a sequence of segments, each a sequence of words.
    pub open spec fn mem(self) -> Seq<Seq<u32>> {
        Seq::new(self.memory@.len(), |i: int| self.memory@[i]@)
    }

    /// An identifier is free when it is on the free list.
    pub open spec fn is_free(self, k: usize) -> bool {
        self.unmapped_segs@.contains(k)
    }

    /// An identifier is live when it has been allocated and is not free.
    pub open spec fn is_live(self, k: usize) -> bool {
        (k as int) < self.memory@.len() && !self.is_free(k)
    }

    /// The machine invariant: eight registers; at least the program
    /// segment and at most `2^32` slots; the watermark is the last slot;
    /// every segment fits a 32-bit length; and the free list holds only
    /// nonzero allocated identifiers, each at most once.
    pub open spec fn inv(self) -> bool {
        &&& self.registers@.len() == 8
        &&& 1 <= self.memory@.len() <= 0x1_0000_0000
        &&& self.max_mapped_seg + 1 == self.memory@.len()
        &&& forall|i: int|
            0 <= i < self.memory@.len() ==> (#[trigger] self.memory@[i]@).len() <= 0xFFFF_FFFF
        &&& forall|i: int|
            0 <= i < self.unmapped_segs@.len() ==> 0 < #[trigger] self.unmapped_segs@[i]
                < self.memory@.len()
        &&& forall|i: int, j: int|
            #![trigger self.unmapped_segs@[i], self.unmapped_segs@[j]]
            0 <= i < j < self.unmapped_segs@.len() ==> self.unmapped_segs@[i]
                != self.unmapped_segs@[j]
    }

    /// A machine as `new_vm` leaves it: no segments yet.
    pub open spec fn is_fresh(self) -> bool {
        &&& self.registers@ == zero_seq(8)
        &&& self.memory@.len() == 0
        &&& self.unmapped_segs@.len() == 0
        &&& self.max_mapped_seg == 0
        &&& self.prog_count == 0
    }
}

/// A vector of `n` zeroed words.
pub fn zeroed(n: usize) -> (v: Vec<u32>)
    ensures
        v@ == zero_seq(n as nat),
{
    let mut v: Vec<u32> = Vec::new();
    let mut i: usize = 0;
    while i < n
        invariant
            i <= n,
            v@.len() == i,
            forall|j: int| 0 <= j < i ==> v@[j] == 0u32,
        decreases n - i,
    {
        v.push(0);
        i = i + 1;
    }
    proof {
        assert(v@ =~= zero_seq(n as nat));
    }
    v
}

/// A copy of a segment, word for word.
pub fn copy_seg(src: &Vec<u32>) -> (v: Vec<u32>)
    ensures
        v@ == src@,
{
    let mut v: Vec<u32> = Vec::new();
    let mut i: usize = 0;
    while i < src.len()
        invariant
            i <= src@.len(),
            v@.len() == i,
            forall|j: int| 0 <= j < i ==> v@[j] == src@[j],
        decreases src@.len() - i,
    {
        v.push(src[i]);
        i = i + 1;
    }
    proof {
        assert(v@ =~= src@);
    }
    v
}

/// Whether the identifier `x` is on the free list.
fn contains_id(v: &Vec<usize>, x: usize) -> (r: bool)
    ensures
        r == v@.contains(x),
{
    let mut i: usize = 0;
    while i < v.len()
        invariant
            i <= v@.len(),
            forall|j: int| 0 <= j < i ==> v@[j] != x,
        decreases v@.len() - i,
    {
        if v[i] == x {
            return true;
        }
        i = i + 1;
    }
    false
}

/// The word at position `i` of `bytes`, read big-endian from four bytes.
pub open spec fn be_word_at(bytes: Seq<u8>, i: int) -> u32 {
    ((bytes[4 * i] as int) * 0x100_0000 + (bytes[4 * i + 1] as int) * 0x1_0000 + (bytes[4 * i + 2]
        as int) * 0x100 + (bytes[4 * i + 3] as int)) as u32
}

/// The program image encoded by `bytes`: one 32-bit word per four bytes,
/// big-endian, no framing.
pub open spec fn be_words(bytes: Seq<u8>) -> Seq<u32> {
    Seq::new(bytes.len() / 4, |i: int| be_word_at(bytes, i))
}

/// The byte the output opcode emits: the low eight bits of `R[c]`.
pub open spec fn out_byte(m: Vm, w: u32) -> u8 {
    (m.registers@[reg_c(w)] as nat % 256) as u8
}

/// The exact state change and effect of executing `word` on `pre`: one case
/// per opcode, with every trap condition spelled out. Traps leave the state
/// unchanged.
pub open spec fn exec_post(pre: Vm, post: Vm, word: u32, e: Effect) -> bool {
    let op = opcode_of(word);
    let rav = pre.registers@[reg_a(word)];
    let rbv = pre.registers@[reg_b(word)];
    let rcv = pre.registers@[reg_c(word)];
    if op == 0 {
        e == Effect::Next && cond_move_post(pre, post, word)
    } else if op == 1 {
        if rbv < pre.memory@.len() && rcv < pre.mem()[rbv as int].len() {
            e == Effect::Next && seg_load_post(pre, post, word)
        } else {
            e == Effect::Trapped(Trap::BadSegment) && post == pre
        }
    } else if op == 2 {
        if rav < pre.memory@.len() && rbv < pre.mem()[rav as int].len() {
            e == Effect::Next && seg_store_post(pre, post, word)
        } else {
            e == Effect::Trapped(Trap::BadSegment) && post == pre
        }
    } else if op == 3 {
        e == Effect::Next && arith_post(pre, post, word, add32(rbv, rcv))
    } else if op == 4 {
        e == Effect::Next && arith_post(pre, post, word, mul32(rbv, rcv))
    } else if op == 5 {
        if rcv != 0 {
            e == Effect::Next && arith_post(pre, post, word, div32(rbv, rcv))
        } else {
            e == Effect::Trapped(Trap::DivideByZero) && post == pre
        }
    } else if op == 6 {
        e == Effect::Next && arith_post(pre, post, word, nand32(rbv, rcv))
    } else if op == 7 {
        e == Effect::Halt && post == pre
    } else if op == 8 {
        if pre.unmapped_segs@.len() > 0 || pre.memory@.len() <= 0xFFFF_FFFF {
            e == Effect::Next && map_post(pre, post, word)
        } else {
            e == Effect::Trapped(Trap::SegmentOverflow) && post == pre
        }
    } else if op == 9 {
        if rcv == 0 {
            e == Effect::Trapped(Trap::UnmapZero) && post == pre
        } else if rcv >= pre.memory@.len() {
            e == Effect::Trapped(Trap::BadSegment) && post == pre
        } else if pre.unmapped_segs@.contains(rcv as usize) {
            e == Effect::Trapped(Trap::UnmapFree) && post == pre
        } else {
            e == Effect::Next && unmap_post(pre, post, word)
        }
    } else if op == 10 {
        e == Effect::Output(out_byte(pre, word)) && post == pre
    } else if op == 11 {
        e == Effect::Input && post == pre
    } else if op == 12 {
        if rbv == 0 || (rbv < pre.memory@.len() && !pre.unmapped_segs@.contains(rbv as usize)) {
            e == Effect::Next && load_prog_post(pre, post, word)
        } else {
            e == Effect::Trapped(Trap::BadSegment) && post == pre
        }
    } else if op == 13 {
        e == Effect::Next && post.registers@ == pre.registers@.update(reg_l(word), val_l(word))
            && post.memory == pre.memory && post.unmapped_segs == pre.unmapped_segs
            && post.max_mapped_seg == pre.max_mapped_seg && post.prog_count == pre.prog_count
    } else {
        e == Effect::Trapped(Trap::UndefinedOpcode) && post == pre
    }
}

/// The next instruction sits inside segment 0.
pub open spec fn fetch_ok(m: Vm) -> bool {
    &&& 0 < m.memory@.len()
    &&& (m.prog_count as int) < m.mem()[0].len()
}

/// The instruction word the machine is about to execute.
pub open spec fn fetched(m: Vm) -> u32 {
    m.mem()[0][m.prog_count as int]
}

/// The machine after the fetch: the counter has moved past the word.
pub open spec fn after_fetch(m: Vm) -> Vm {
    Vm { prog_count: (m.prog_count + 1) as u32, ..m }
}

/// What the input opcode does to the machine and to the unconsumed input:
/// the front byte moves into `R[c]` zero-extended, or, when the input is
/// exhausted, the register takes the all-ones word.
pub open spec fn input_step(mf: Vm, m2: Vm, w: u32, inp: Seq<u8>, inp2: Seq<u8>) -> bool {
    &&& m2.registers@ == mf.registers@.update(reg_c(w), (if inp.len() > 0 {
        inp.first() as u32
    } else {
        0xFFFF_FFFFu32
    }))
    &&& inp2 == (if inp.len() > 0 {
        inp.drop_first()
    } else {
        inp
    })
    &&& m2.memory == mf.memory
    &&& m2.unmapped_segs == mf.unmapped_segs
    &&& m2.max_mapped_seg == mf.max_mapped_seg
    &&& m2.prog_count == mf.prog_count
}

/// One observable step of a run, over configurations of machine, unconsumed
/// input and written output: one word is fetched, and its execution either
/// changes the state, writes one output byte, or consumes one input byte.
pub open spec fn step_rel(c1: (Vm, Seq<u8>, Seq<u8>), c2: (Vm, Seq<u8>, Seq<u8>)) -> bool {
    let mf = after_fetch(c1.0);
    let w = fetched(c1.0);
    &&& fetch_ok(c1.0)
    &&& {
        ||| (exec_post(mf, c2.0, w, Effect::Next) && c2.1 == c1.1 && c2.2 == c1.2)
        ||| (exec_post(mf, c2.0, w, Effect::Output(out_byte(mf, w))) && c2.1 == c1.1 && c2.2
            == c1.2.push(out_byte(mf, w)))
        ||| (exec_post(mf, mf, w, Effect::Input) && input_step(mf, c2.0, w, c1.1, c2.1) && c2.2
            == c1.2)
    }
}

/// The configuration `c2` is what `c1` becomes after `n` observable steps.
pub open spec fn reaches(c1: (Vm, Seq<u8>, Seq<u8>), c2: (Vm, Seq<u8>, Seq<u8>), n: nat) -> bool
    decreases n,
{
    if n == 0 {
        c1 == c2
    } else {
        exists|mid: (Vm, Seq<u8>, Seq<u8>)|
            reaches(c1, mid, (n - 1) as nat) && step_rel(mid, c2)
    }
}

/// A completed call of `run`: from the starting configuration `init` some
/// chain of observable steps leads to a configuration whose output is what
/// the call returned, and there the run ended as the returned status says,
/// leaving the machine `m2`.
/// A run that was stopped by the step budget alone: exactly `n` observable
/// steps lead from `init` to the machine `m2` with output `out`.
pub open spec fn running_post(init: (Vm, Seq<u8>, Seq<u8>), m2: Vm, out: Seq<u8>, n: nat) -> bool {
    exists|rest: Seq<u8>| #[trigger] reaches(init, (m2, rest, out), n)
}

pub open spec fn run_post(init: (Vm, Seq<u8>, Seq<u8>), m2: Vm, out: Seq<u8>, st: Status) -> bool {
    exists|n: nat, rest: Seq<u8>, m: Vm|
        {
            &&& #[trigger] reaches(init, (m, rest, out), n)
            &&& run_ends((m, rest, out), m2, st)
        }
}

/// How a run ends at the configuration `c`, leaving the machine `m2`:
/// `Halted` after a fetched halt instruction, `Trapped` either at a fetch
/// that fell outside segment 0 or at a word whose execution traps, and
/// `Running` when only the step budget ran out.
pub open spec fn run_ends(c: (Vm, Seq<u8>, Seq<u8>), m2: Vm, st: Status) -> bool {
    let m = c.0;
    match st {
        Status::Running => m2 == m,
        Status::Halted => {
            &&& fetch_ok(m)
            &&& m2 == after_fetch(m)
            &&& exec_post(after_fetch(m), m2, fetched(m), Effect::Halt)
        },
        Status::Trapped(t) => if t == Trap::BadFetch {
            !fetch_ok(m) && m2 == m
        } else {
            &&& fetch_ok(m)
            &&& m2 == after_fetch(m)
            &&& exec_post(after_fetch(m), m2, fetched(m), Effect::Trapped(t))
        },
    }
}

impl Vm {
    /// A machine with eight zeroed registers and no segments.
    pub fn new_vm() -> (vm: Vm)
        ensures
            vm.is_fresh(),
    {
        Vm {
            registers: zeroed(8),
            memory: Vec::new(),
            unmapped_segs: Vec::new(),
            max_mapped_seg: 0,
            prog_count: 0,
        }
    }

    /// Install the program image encoded by `bytes` as segment 0. The byte
    /// stream must be a whole number of big-endian 32-bit words, and at most
    /// `2^32 - 1` of them; otherwise nothing changes and `false` comes back.
    pub fn boot(&mut self, bytes: &Vec<u8>) -> (ok: bool)
        requires
            old(self).is_fresh(),
        ensures
            ok == (bytes@.len() % 4 == 0 && bytes@.len() / 4 <= 0xFFFF_FFFF),
            ok ==> {
                &&& final(self).inv()
                &&& final(self).mem() == seq![be_words(bytes@)]
                &&& final(self).registers@ == zero_seq(8)
                &&& final(self).unmapped_segs@.len() == 0
                &&& final(self).max_mapped_seg == 0
                &&& final(self).prog_count == 0
            },
            !ok ==> *final(self) == *old(self),
    {
        if bytes.len() % 4 != 0 {
            return false;
        }
        let n = bytes.len() / 4;
        if n > 0xFFFF_FFFFusize {
            return false;
        }
        let mut words: Vec<u32> = Vec::new();
        let mut i: usize = 0;
        while i < n
            invariant
                i <= n,
                n == bytes@.len() / 4,
                4 * n <= bytes@.len(),
                bytes@.len() <= usize::MAX,
                words@.len() == i,
                forall|j: int| 0 <= j < i ==> words@[j] == be_word_at(bytes@, j),
            decreases n - i,
        {
            let b0 = bytes[4 * i];
            let b1 = bytes[4 * i + 1];
            let b2 = bytes[4 * i + 2];
            let b3 = bytes[4 * i + 3];
            let w = (b0 as u32) * 0x100_0000 + (b1 as u32) * 0x1_0000 + (b2 as u32) * 0x100 + (b3
                as u32);
            words.push(w);
            i = i + 1;
        }
        proof {
            assert(words@ =~= be_words(bytes@));
        }
        self.memory.push(words);
        proof {
            assert(self.mem() =~= seq![be_words(bytes@)]);
        }
        true
    }

    /// Fetch the next instruction and step the program counter past it.
    pub fn get_instruct(&mut self) -> (w: u32)
        requires
            old(self).inv(),
            (old(self).prog_count as int) < old(self).mem()[0].len(),
        ensures
            final(self).inv(),
            w == old(self).mem()[0][old(self).prog_count as int],
            final(self).prog_count == old(self).prog_count + 1,
            final(self).registers == old(self).registers,
            final(self).memory == old(self).memory,
            final(self).unmapped_segs == old(self).unmapped_segs,
            final(self).max_mapped_seg == old(self).max_mapped_seg,
    {
        let pc = self.prog_count as usize;
        let w = self.memory[0][pc];
        self.prog_count = self.prog_count + 1;
        w
    }

    /// Decode and execute one instruction word. Opcodes that would trap do
    /// not touch the state; the returned [`Effect`] says what happened and
    /// what the caller must do before the next step.
    pub fn execute(&mut self, word: u32) -> (e: Effect)
        requires
            old(self).inv(),
        ensures
            final(self).inv(),
            exec_post(*old(self), *final(self), word, e),
    {
        proof {
            vstd::arithmetic::power2::lemma2_to64();
        }
        let opcode = get(&Field { width: 4, lsb: 28 }, word);
        let b = get(&Field { width: 3, lsb: 3 }, word);
        let c = get(&Field { width: 3, lsb: 0 }, word);
        match opcode {
            0 => {
                cond_move(self, word);
                Effect::Next
            },
            1 => {
                let s = self.registers[b] as usize;
                if s < self.memory.len() && (self.registers[c] as usize) < self.memory[s].len() {
                    seg_load(self, word);
                    Effect::Next
                } else {
                    Effect::Trapped(Trap::BadSegment)
                }
            },
            2 => {
                let a = get(&Field { width: 3, lsb: 6 }, word);
                let s = self.registers[a] as usize;
                if s < self.memory.len() && (self.registers[b] as usize) < self.memory[s].len() {
                    seg_store(self, word);
                    Effect::Next
                } else {
                    Effect::Trapped(Trap::BadSegment)
                }
            },
            3 => {
                crate::instructs::add(self, word);
                Effect::Next
            },
            4 => {
                crate::instructs::mul(self, word);
                Effect::Next
            },
            5 => {
                if self.registers[c] != 0 {
                    div(self, word);
                    Effect::Next
                } else {
                    Effect::Trapped(Trap::DivideByZero)
                }
            },
            6 => {
                nand(self, word);
                Effect::Next
            },
            7 => Effect::Halt,
            8 => {
                if self.unmapped_segs.len() > 0 || self.memory.len() <= 0xFFFF_FFFFusize {
                    map_seg(self, word);
                    Effect::Next
                } else {
                    Effect::Trapped(Trap::SegmentOverflow)
                }
            },
            9 => {
                let k = self.registers[c] as usize;
                if k == 0 {
                    Effect::Trapped(Trap::UnmapZero)
                } else if k >= self.memory.len() {
                    Effect::Trapped(Trap::BadSegment)
                } else if contains_id(&self.unmapped_segs, k) {
                    Effect::Trapped(Trap::UnmapFree)
                } else {
                    unmap_seg(self, word);
                    Effect::Next
                }
            },
            10 => {
                let byte = output(self, word);
                Effect::Output(byte)
            },
            11 => Effect::Input,
            12 => {
                let s = self.registers[b] as usize;
                if s == 0 || (s < self.memory.len() && !contains_id(&self.unmapped_segs, s)) {
                    load_prog(self, word);
                    Effect::Next
                } else {
                    Effect::Trapped(Trap::BadSegment)
                }
            },
            13 => {
                load_val(self, word);
                Effect::Next
            },
            _ => Effect::Trapped(Trap::UndefinedOpcode),
        }
    }

    /// Run the machine until it halts, traps, or has executed `max_steps`
    /// instructions. Bytes asked for by the input opcode are taken from the
    /// front of `input_bytes`, and once they run out the opcode sees
    /// end-of-file; bytes written by the output opcode are collected in
    /// order and returned with the final status. The run is a chain of
    /// observable steps from the starting configuration, ended as the
    /// returned status says.
    pub fn run(&mut self, input_bytes: &Vec<u8>, max_steps: u64) -> (r: (Vec<u8>, Status))
        requires
            old(self).inv(),
        ensures
            final(self).inv(),
            run_post((*old(self), input_bytes@, Seq::<u8>::empty()), *final(self), r.0@, r.1),
            r.1 == Status::Running ==> running_post(
                (*old(self), input_bytes@, Seq::<u8>::empty()),
                *final(self),
                r.0@,
                max_steps as nat,
            ),
    {
        let ghost init = (*old(self), input_bytes@, Seq::<u8>::empty());
        let mut output_bytes: Vec<u8> = Vec::new();
        let mut pos: usize = 0;
        let mut steps: u64 = 0;
        proof {
            assert(input_bytes@.skip(0) =~= input_bytes@);
            assert(reaches(init, init, 0));
        }
        while steps < max_steps
            invariant
                self.inv(),
                pos <= input_bytes@.len(),
                steps <= max_steps,
                init == (*old(self), input_bytes@, Seq::<u8>::empty()),
                reaches(init, (*self, input_bytes@.skip(pos as int), output_bytes@), steps as nat),
            decreases max_steps - steps,
        {
            let ghost m_top = *self;
            let ghost c_top = (m_top, input_bytes@.skip(pos as int), output_bytes@);
            let ghost n_top: nat = steps as nat;
            if !((self.prog_count as usize) < self.memory[0].len()) {
                proof {
                    assert(reaches(init, c_top, n_top));
                    assert(run_ends(c_top, *self, Status::Trapped(Trap::BadFetch)));
                    assert(run_post(init, *self, output_bytes@, Status::Trapped(Trap::BadFetch)));
                }
                return (output_bytes, Status::Trapped(Trap::BadFetch));
            }
            let word = self.get_instruct();
            proof {
                assert(*self == after_fetch(m_top));
                assert(word == fetched(m_top));
            }
            let e = self.execute(word);
            match e {
                Effect::Next => {
                    proof {
                        let c_next = (*self, input_bytes@.skip(pos as int), output_bytes@);
                        assert(step_rel(c_top, c_next));
                        assert(reaches(init, c_next, n_top + 1));
                    }
                },
                Effect::Halt => {
                    proof {
                        assert(reaches(init, c_top, n_top));
                        assert(run_ends(c_top, *self, Status::Halted));
                        assert(run_post(init, *self, output_bytes@, Status::Halted));
                    }
                    return (output_bytes, Status::Halted);
                },
                Effect::Output(bt) => {
                    let ghost out_top = output_bytes@;
                    output_bytes.push(bt);
                    proof {
                        let c_next = (*self, input_bytes@.skip(pos as int), output_bytes@);
                        assert(exec_post(after_fetch(m_top), *self, word, Effect::Output(bt)));
                        assert(bt == out_byte(after_fetch(m_top), word));
                        assert(output_bytes@ == out_top.push(bt));
                        assert(step_rel(c_top, c_next));
                        assert(reaches(init, c_next, n_top + 1));
                    }
                },
                Effect::Input => {
                    let ghost pos_top = pos as int;
                    let byte: Option<u8> = if pos < input_bytes.len() {
                        let x = input_bytes[pos];
                        pos = pos + 1;
                        Some(x)
                    } else {
                        None
                    };
                    input(self, word, byte);
                    proof {
                        let inp_top = input_bytes@.skip(pos_top);
                        let inp_next = input_bytes@.skip(pos as int);
                        if pos_top < input_bytes@.len() {
                            assert(inp_top.first() == input_bytes@[pos_top]);
                            assert(inp_top.drop_first() =~= inp_next);
                        }
                        assert(input_step(after_fetch(m_top), *self, word, inp_top, inp_next));
                        let c_next = (*self, inp_next, output_bytes@);
                        assert(step_rel(c_top, c_next));
                        assert(reaches(init, c_next, n_top + 1));
                    }
                },
                Effect::Trapped(t) => {
                    proof {
                        assert(reaches(init, c_top, n_top));
                        assert(run_ends(c_top, *self, Status::Trapped(t)));
                        assert(run_post(init, *self, output_bytes@, Status::Trapped(t)));
                    }
                    return (output_bytes, Status::Trapped(t));
                },
            }
            steps = steps + 1;
        }
        proof {
            let c_end = (*self, input_bytes@.skip(pos as int), output_bytes@);
            assert(reaches(init, c_end, max_steps as nat));
            assert(run_ends(c_end, *self, Status::Running));
            assert(run_post(init, *self, output_bytes@, Status::Running));
            assert(running_post(init, *self, output_bytes@, max_steps as nat));
        }
        (output_bytes, Status::Running)
    }
}

/// Segment 0 is live in every state that satisfies the machine invariant;
/// since `boot` establishes the invariant and every operation preserves it,
/// the program segment is live at every moment of a run.
pub proof fn lemma_segment_zero_live(vm: Vm)
    requires
        vm.inv(),
    ensures
        vm.is_live(0),
{
    if vm.unmapped_segs@.contains(0usize) {
        let i = choose|i: int| 0 <= i < vm.unmapped_segs@.len() && vm.unmapped_segs@[i] == 0usize;
        assert(0 < vm.unmapped_segs@[i]);
        assert(false);
    }
}

/// In every state that satisfies the machine invariant, the free list holds
/// no zero, no duplicate, and no live identifier.
pub proof fn lemma_free_list_sound(vm: Vm)
    requires
        vm.inv(),
    ensures
        forall|i: int| 0 <= i < vm.unmapped_segs@.len() ==> #[trigger] vm.unmapped_segs@[i] != 0,
        forall|i: int, j: int|
            #![trigger vm.unmapped_segs@[i], vm.unmapped_segs@[j]]
            0 <= i < j < vm.unmapped_segs@.len() ==> vm.unmapped_segs@[i] != vm.unmapped_segs@[j],
        forall|i: int|
            0 <= i < vm.unmapped_segs@.len() ==> !vm.is_live(#[trigger] vm.unmapped_segs@[i]),
{
    assert forall|i: int| 0 <= i < vm.unmapped_segs@.len() implies !vm.is_live(
        #[trigger] vm.unmapped_segs@[i],
    ) by {
        assert(vm.unmapped_segs@.contains(vm.unmapped_segs@[i]));
    }
}

} // verus!
