//! Instruction decoding and one verified handler per opcode.
//!
//! An instruction word is 32 bits: its top four bits are the opcode, and
//! registers live in three-bit fields. Each handler's contract states the
//! exact machine state after the operation; trap conditions are excluded by
//! `requires` and checked by the dispatch loop, which turns them into
//! `Effect::Trapped` values instead of executing the handler.

use vstd::prelude::*;
use vstd::arithmetic::power2::{pow2, lemma_pow2_pos, lemma2_to64};
use vstd::arithmetic::mul::lemma_mul_upper_bound;
use vstd::bits::{lemma_u32_low_bits_mask_is_mod, lemma_u32_pow2_no_overflow, lemma_u32_shl_is_mul, lemma_u32_shr_is_div};
use crate::bitpack::field_of;
use crate::rum::{Vm, zero_seq};

verus! {

/// A bit field of an instruction word: `width` bits starting at bit `lsb`.
pub struct Field {
    pub width: u32,
    pub lsb: u32,
}

/// Opcode: the four top bits of the word.
pub open spec fn opcode_of(w: u32) -> nat {
    field_of(w as nat, 4, 28)
}

/// Register selector A, bits 6 to 8.
pub open spec fn reg_a(w: u32) -> int {
    field_of(w as nat, 3, 6) as int
}

/// Register selector B, bits 3 to 5.
pub open spec fn reg_b(w: u32) -> int {
    field_of(w as nat, 3, 3) as int
}

/// Register selector C, bits 0 to 2.
pub open spec fn reg_c(w: u32) -> int {
    field_of(w as nat, 3, 0) as int
}

/// Register selector of the load-value form, bits 25 to 27.
pub open spec fn reg_l(w: u32) -> int {
    field_of(w as nat, 3, 25) as int
}

/// Immediate of the load-value form, the low 25 bits.
pub open spec fn val_l(w: u32) -> u32 {
    field_of(w as nat, 25, 0) as u32
}

/// Addition over 32-bit words wraps modulo `2^32`.
pub open spec fn add32(x: u32, y: u32) -> u32 {
    ((x + y) % 0x1_0000_0000) as u32
}

/// Multiplication over 32-bit words wraps modulo `2^32`.
pub open spec fn mul32(x: u32, y: u32) -> u32 {
    ((x * y) % 0x1_0000_0000) as u32
}

/// Truncated unsigned division.
pub open spec fn div32(x: u32, y: u32) -> u32
    recommends
        y != 0,
{
    (x as int / y as int) as u32
}

/// Bitwise NAND over 32-bit words.
pub open spec fn nand32(x: u32, y: u32) -> u32 {
    !(x & y)
}

/// The mask with the low `bits` bits set.
fn mask(bits: u32) -> (r: u32)
    requires
        1 <= bits < 32,
    ensures
        r as nat == pow2(bits as nat) - 1,
{
    proof {
        lemma_u32_pow2_no_overflow(bits as nat);
        lemma_u32_shl_is_mul(1u32, bits);
    }
    (1u32 << bits) - 1
}

/// Extracts the value of a field from an instruction word: the `width`-bit
/// field of `instruction` that starts at bit `lsb`, as an index-sized value.
pub fn get(field: &Field, instruction: u32) -> (r: usize)
    requires
        1 <= field.width < 32,
        field.lsb + field.width <= 32,
    ensures
        r as nat == field_of(instruction as nat, field.width as nat, field.lsb as nat),
        r < pow2(field.width as nat),
{
    proof {
        lemma_u32_shr_is_div(instruction, field.lsb);
        lemma_u32_pow2_no_overflow(field.width as nat);
        lemma_u32_shl_is_mul(1u32, field.width);
        lemma_u32_low_bits_mask_is_mod(instruction >> field.lsb, field.width as nat);
        lemma_pow2_pos(field.width as nat);
    }
    ((instruction >> field.lsb) & mask(field.width)) as usize
}

/// State change of Conditional Move: if `R[c]` is nonzero, `R[a]` takes the
/// value of `R[b]`; everything else is unchanged.
pub open spec fn cond_move_post(pre: Vm, post: Vm, word: u32) -> bool {
    &&& post.registers@ == (if pre.registers@[reg_c(word)] == 0 {
        pre.registers@
    } else {
        pre.registers@.update(reg_a(word), pre.registers@[reg_b(word)])
    })
    &&& post.memory == pre.memory
    &&& post.unmapped_segs == pre.unmapped_segs
    &&& post.max_mapped_seg == pre.max_mapped_seg
    &&& post.prog_count == pre.prog_count
}

/// Conditional Move operator.
pub fn cond_move(vm: &mut Vm, word: u32)
    requires
        old(vm).registers@.len() == 8,
    ensures
        cond_move_post(*old(vm), *final(vm), word),
{
    proof {
        lemma2_to64();
    }
    let a = get(&Field { width: 3, lsb: 6 }, word);
    let b = get(&Field { width: 3, lsb: 3 }, word);
    let c = get(&Field { width: 3, lsb: 0 }, word);
    if vm.registers[c] != 0 {
        vm.registers[a] = vm.registers[b];
    }
}

/// State change of Segmented Load: `R[a]` takes the word of segment `R[b]`
/// at offset `R[c]`; everything else is unchanged.
pub open spec fn seg_load_post(pre: Vm, post: Vm, word: u32) -> bool {
    &&& post.registers@ == pre.registers@.update(
        reg_a(word),
        pre.mem()[pre.registers@[reg_b(word)] as int][pre.registers@[reg_c(word)] as int],
    )
    &&& post.memory == pre.memory
    &&& post.unmapped_segs == pre.unmapped_segs
    &&& post.max_mapped_seg == pre.max_mapped_seg
    &&& post.prog_count == pre.prog_count
}

/// Segmented Load operator.
pub fn seg_load(vm: &mut Vm, word: u32)
    requires
        old(vm).registers@.len() == 8,
        old(vm).registers@[reg_b(word)] < old(vm).memory@.len(),
        old(vm).registers@[reg_c(word)] < old(vm).mem()[old(vm).registers@[reg_b(word)] as int].len(),
    ensures
        seg_load_post(*old(vm), *final(vm), word),
{
    proof {
        lemma2_to64();
    }
    let a = get(&Field { width: 3, lsb: 6 }, word);
    let b = get(&Field { width: 3, lsb: 3 }, word);
    let c = get(&Field { width: 3, lsb: 0 }, word);
    let s = vm.registers[b] as usize;
    let o = vm.registers[c] as usize;
    let x = vm.memory[s][o];
    vm.registers[a] = x;
}

/// State change of Segmented Store: the word of segment `R[a]` at offset
/// `R[b]` takes the value of `R[c]`; everything else is unchanged.
pub open spec fn seg_store_post(pre: Vm, post: Vm, word: u32) -> bool {
    let s = pre.registers@[reg_a(word)] as int;
    let o = pre.registers@[reg_b(word)] as int;
    &&& post.mem() == pre.mem().update(s, pre.mem()[s].update(o, pre.registers@[reg_c(word)]))
    &&& post.registers == pre.registers
    &&& post.unmapped_segs == pre.unmapped_segs
    &&& post.max_mapped_seg == pre.max_mapped_seg
    &&& post.prog_count == pre.prog_count
}

/// Segmented Store operator.
pub fn seg_store(vm: &mut Vm, word: u32)
    requires
        old(vm).inv(),
        old(vm).registers@[reg_a(word)] < old(vm).memory@.len(),
        old(vm).registers@[reg_b(word)] < old(vm).mem()[old(vm).registers@[reg_a(word)] as int].len(),
    ensures
        final(vm).inv(),
        seg_store_post(*old(vm), *final(vm), word),
{
    proof {
        lemma2_to64();
    }
    let a = get(&Field { width: 3, lsb: 6 }, word);
    let b = get(&Field { width: 3, lsb: 3 }, word);
    let c = get(&Field { width: 3, lsb: 0 }, word);
    let s = vm.registers[a] as usize;
    let o = vm.registers[b] as usize;
    let x = vm.registers[c];
    vm.memory[s][o] = x;
    proof {
        assert(vm.mem() =~= old(vm).mem().update(
            s as int,
            old(vm).mem()[s as int].update(o as int, x),
        ));
    }
}

/// State change of a pure register-to-register arithmetic operator.
pub open spec fn arith_post(pre: Vm, post: Vm, word: u32, value: u32) -> bool {
    &&& post.registers@ == pre.registers@.update(reg_a(word), value)
    &&& post.memory == pre.memory
    &&& post.unmapped_segs == pre.unmapped_segs
    &&& post.max_mapped_seg == pre.max_mapped_seg
    &&& post.prog_count == pre.prog_count
}

/// Add operator: `R[a]` takes `R[b] + R[c]` modulo `2^32`.
pub fn add(vm: &mut Vm, word: u32)
    requires
        old(vm).registers@.len() == 8,
    ensures
        arith_post(*old(vm), *final(vm), word, add32(
            old(vm).registers@[reg_b(word)],
            old(vm).registers@[reg_c(word)],
        )),
{
    proof {
        lemma2_to64();
    }
    let a = get(&Field { width: 3, lsb: 6 }, word);
    let b = get(&Field { width: 3, lsb: 3 }, word);
    let c = get(&Field { width: 3, lsb: 0 }, word);
    let r = ((vm.registers[b] as u64 + vm.registers[c] as u64) % 0x1_0000_0000u64) as u32;
    vm.registers[a] = r;
}

/// Multiply operator: `R[a]` takes `R[b] * R[c]` modulo `2^32`.
pub fn mul(vm: &mut Vm, word: u32)
    requires
        old(vm).registers@.len() == 8,
    ensures
        arith_post(*old(vm), *final(vm), word, mul32(
            old(vm).registers@[reg_b(word)],
            old(vm).registers@[reg_c(word)],
        )),
{
    proof {
        lemma2_to64();
    }
    let a = get(&Field { width: 3, lsb: 6 }, word);
    let b = get(&Field { width: 3, lsb: 3 }, word);
    let c = get(&Field { width: 3, lsb: 0 }, word);
    let x = vm.registers[b];
    let y = vm.registers[c];
    proof {
        lemma_mul_upper_bound(x as int, 0xFFFF_FFFF, y as int, 0xFFFF_FFFF);
    }
    let r = ((x as u64 * y as u64) % 0x1_0000_0000u64) as u32;
    vm.registers[a] = r;
}

/// Divide operator: `R[a]` takes `R[b] / R[c]`, truncated unsigned division.
pub fn div(vm: &mut Vm, word: u32)
    requires
        old(vm).registers@.len() == 8,
        old(vm).registers@[reg_c(word)] != 0,
    ensures
        arith_post(*old(vm), *final(vm), word, div32(
            old(vm).registers@[reg_b(word)],
            old(vm).registers@[reg_c(word)],
        )),
{
    proof {
        lemma2_to64();
    }
    let a = get(&Field { width: 3, lsb: 6 }, word);
    let b = get(&Field { width: 3, lsb: 3 }, word);
    let c = get(&Field { width: 3, lsb: 0 }, word);
    let r = vm.registers[b] / vm.registers[c];
    vm.registers[a] = r;
}

/// Bitwise NAND operator: `R[a]` takes `!(R[b] & R[c])`.
pub fn nand(vm: &mut Vm, word: u32)
    requires
        old(vm).registers@.len() == 8,
    ensures
        arith_post(*old(vm), *final(vm), word, nand32(
            old(vm).registers@[reg_b(word)],
            old(vm).registers@[reg_c(word)],
        )),
{
    proof {
        lemma2_to64();
    }
    let a = get(&Field { width: 3, lsb: 6 }, word);
    let b = get(&Field { width: 3, lsb: 3 }, word);
    let c = get(&Field { width: 3, lsb: 0 }, word);
    let r = !(vm.registers[b] & vm.registers[c]);
    vm.registers[a] = r;
}

/// State change of Map Segment: a zeroed segment of length `R[c]` is placed
/// either under the most recently freed identifier, or, when none is free,
/// under a fresh identifier one past the watermark; `R[b]` takes that
/// identifier.
pub open spec fn map_post(pre: Vm, post: Vm, word: u32) -> bool {
    let b = reg_b(word);
    let len = pre.registers@[reg_c(word)] as nat;
    if pre.unmapped_segs@.len() > 0 {
        let k = pre.unmapped_segs@.last();
        &&& post.unmapped_segs@ == pre.unmapped_segs@.drop_last()
        &&& post.mem() == pre.mem().update(k as int, zero_seq(len))
        &&& post.registers@ == pre.registers@.update(b, k as u32)
        &&& post.max_mapped_seg == pre.max_mapped_seg
        &&& post.prog_count == pre.prog_count
    } else {
        &&& post.unmapped_segs@ == pre.unmapped_segs@
        &&& post.mem() == pre.mem().push(zero_seq(len))
        &&& post.registers@ == pre.registers@.update(b, pre.memory@.len() as u32)
        &&& post.max_mapped_seg == pre.max_mapped_seg + 1
        &&& post.prog_count == pre.prog_count
    }
}

/// Map Segment operator. Reuses the top of the free list when it is
/// nonempty; otherwise mints a fresh identifier.
pub fn map_seg(vm: &mut Vm, word: u32)
    requires
        old(vm).inv(),
        old(vm).unmapped_segs@.len() > 0 || old(vm).memory@.len() <= 0xFFFF_FFFF,
    ensures
        final(vm).inv(),
        map_post(*old(vm), *final(vm), word),
        final(vm).is_live(final(vm).registers@[reg_b(word)] as usize),
{
    proof {
        lemma2_to64();
    }
    let b = get(&Field { width: 3, lsb: 3 }, word);
    let c = get(&Field { width: 3, lsb: 0 }, word);
    let len = vm.registers[c] as usize;
    let seg = crate::rum::zeroed(len);
    if vm.unmapped_segs.len() != 0 {
        let k = vm.unmapped_segs.pop().unwrap();
        vm.memory[k] = seg;
        vm.registers[b] = k as u32;
        proof {
            let fl = old(vm).unmapped_segs@;
            assert(!fl.drop_last().contains(k)) by {
                if fl.drop_last().contains(k) {
                    let i = choose|i: int|
                        0 <= i < fl.drop_last().len() && fl.drop_last()[i] == k;
                    assert(fl[i] == fl[fl.len() - 1]);
                    assert(false);
                }
            }
            assert(vm.mem() =~= old(vm).mem().update(k as int, zero_seq(
                old(vm).registers@[reg_c(word)] as nat,
            )));
        }
    } else {
        vm.max_mapped_seg = vm.max_mapped_seg + 1;
        vm.memory.push(seg);
        vm.registers[b] = vm.max_mapped_seg as u32;
        proof {
            assert(vm.mem() =~= old(vm).mem().push(zero_seq(
                old(vm).registers@[reg_c(word)] as nat,
            )));
        }
    }
}

/// State change of Unmap Segment: the segment named by `R[c]` is released
/// and its identifier is pushed on the free list.
pub open spec fn unmap_post(pre: Vm, post: Vm, word: u32) -> bool {
    let k = pre.registers@[reg_c(word)] as int;
    &&& post.mem() == pre.mem().update(k, Seq::<u32>::empty())
    &&& post.unmapped_segs@ == pre.unmapped_segs@.push(pre.registers@[reg_c(word)] as usize)
    &&& post.registers == pre.registers
    &&& post.max_mapped_seg == pre.max_mapped_seg
    &&& post.prog_count == pre.prog_count
}

/// Unmap Segment operator.
pub fn unmap_seg(vm: &mut Vm, word: u32)
    requires
        old(vm).inv(),
        0 < old(vm).registers@[reg_c(word)],
        old(vm).registers@[reg_c(word)] < old(vm).memory@.len(),
        !old(vm).unmapped_segs@.contains(old(vm).registers@[reg_c(word)] as usize),
    ensures
        final(vm).inv(),
        unmap_post(*old(vm), *final(vm), word),
        final(vm).is_free(old(vm).registers@[reg_c(word)] as usize),
{
    proof {
        lemma2_to64();
    }
    let c = get(&Field { width: 3, lsb: 0 }, word);
    let k = vm.registers[c] as usize;
    vm.memory[k] = Vec::new();
    vm.unmapped_segs.push(k);
    proof {
        assert(vm.mem() =~= old(vm).mem().update(k as int, Seq::<u32>::empty()));
        assert(vm.unmapped_segs@[vm.unmapped_segs@.len() - 1] == k);
    }
}

/// Output operator: the byte written to the output stream is the low eight
/// bits of `R[c]`.
pub fn output(vm: &Vm, word: u32) -> (b: u8)
    requires
        vm.registers@.len() == 8,
    ensures
        b as nat == vm.registers@[reg_c(word)] as nat % 256,
{
    proof {
        lemma2_to64();
    }
    let c = get(&Field { width: 3, lsb: 0 }, word);
    (vm.registers[c] % 256) as u8
}

/// Input operator: `R[c]` takes the byte read from the input stream,
/// zero-extended, or the all-ones word when the stream has ended.
pub fn input(vm: &mut Vm, word: u32, byte: Option<u8>)
    requires
        old(vm).registers@.len() == 8,
    ensures
        final(vm).registers@.len() == old(vm).registers@.len(),
        final(vm).registers@ == old(vm).registers@.update(reg_c(word), (match byte {
            Some(x) => x as u32,
            None => 0xFFFF_FFFFu32,
        })),
        final(vm).memory == old(vm).memory,
        final(vm).unmapped_segs == old(vm).unmapped_segs,
        final(vm).max_mapped_seg == old(vm).max_mapped_seg,
        final(vm).prog_count == old(vm).prog_count,
{
    proof {
        lemma2_to64();
    }
    let c = get(&Field { width: 3, lsb: 0 }, word);
    let value = match byte {
        Some(x) => x as u32,
        None => 0xFFFF_FFFFu32,
    };
    vm.registers[c] = value;
}

/// State change of Load Program: when `R[b]` is nonzero, segment 0 becomes
/// a duplicate of segment `R[b]` (which stays mapped and unchanged); the
/// program counter takes `R[c]` either way.
pub open spec fn load_prog_post(pre: Vm, post: Vm, word: u32) -> bool {
    let s = pre.registers@[reg_b(word)] as int;
    &&& post.mem() == (if pre.registers@[reg_b(word)] == 0 {
        pre.mem()
    } else {
        pre.mem().update(0, pre.mem()[s])
    })
    &&& post.registers == pre.registers
    &&& post.unmapped_segs == pre.unmapped_segs
    &&& post.max_mapped_seg == pre.max_mapped_seg
    &&& post.prog_count == pre.registers@[reg_c(word)]
}

/// Load Program operator.
pub fn load_prog(vm: &mut Vm, word: u32)
    requires
        old(vm).inv(),
        old(vm).registers@[reg_b(word)] != 0 ==> {
            &&& old(vm).registers@[reg_b(word)] < old(vm).memory@.len()
            &&& !old(vm).unmapped_segs@.contains(old(vm).registers@[reg_b(word)] as usize)
        },
    ensures
        final(vm).inv(),
        load_prog_post(*old(vm), *final(vm), word),
{
    proof {
        lemma2_to64();
    }
    let b = get(&Field { width: 3, lsb: 3 }, word);
    let c = get(&Field { width: 3, lsb: 0 }, word);
    let s = vm.registers[b] as usize;
    if s != 0 {
        let dup = crate::rum::copy_seg(&vm.memory[s]);
        vm.memory[0] = dup;
        proof {
            assert(vm.mem() =~= old(vm).mem().update(0, old(vm).mem()[s as int]));
        }
    }
    vm.prog_count = vm.registers[c];
}

/// Load Value operator: the register named by the three bits below the
/// opcode takes the 25-bit immediate, zero-extended.
pub fn load_val(vm: &mut Vm, word: u32)
    requires
        old(vm).registers@.len() == 8,
    ensures
        final(vm).registers@ == old(vm).registers@.update(reg_l(word), val_l(word)),
        final(vm).memory == old(vm).memory,
        final(vm).unmapped_segs == old(vm).unmapped_segs,
        final(vm).max_mapped_seg == old(vm).max_mapped_seg,
        final(vm).prog_count == old(vm).prog_count,
{
    proof {
        lemma2_to64();
    }
    let a = get(&Field { width: 3, lsb: 25 }, word);
    let value = get(&Field { width: 25, lsb: 0 }, word);
    vm.registers[a] = value as u32;
}

} // verus!
