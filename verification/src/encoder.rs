//! Encoder: maps each resolved instruction record to exactly one 32-bit
//! word, laid out per category, or reports the record that cannot be
//! represented.

use vstd::prelude::*;

use crate::decoder::{
    Command, CommandV, Instructions, InstructionType, AsmError, AsmErrorV, ErrKind, spec_type_of,
    instruction_type_of, LabelV, last_label_arg, lookup_label, spec_fill_labels,
};
use crate::text::{
    parse_i8, parse_i8_str, reg_index_of, parse_reg_index, parse_int, lemma_dec_parse_round_trip,
    lemma_digits_val_nonneg,
};
use vstd::arithmetic::power2::{pow2, lemma_pow2_unfold, lemma_pow2_adds, lemma2_to64};

verus! {

/// The fixed 5-bit ALU operation code of each mnemonic, most significant
/// bit first; load-immediate and the I/O pseudo-ops have no code.
pub open spec fn spec_alu_bits(m: Instructions) -> Seq<u8> {
    match m {
        Instructions::ADD => seq![0u8, 0u8, 0u8, 0u8, 0u8],
        Instructions::SUB => seq![0u8, 1u8, 0u8, 0u8, 0u8],
        Instructions::XOR => seq![0u8, 0u8, 1u8, 0u8, 0u8],
        Instructions::OR => seq![0u8, 0u8, 1u8, 1u8, 0u8],
        Instructions::AND => seq![0u8, 0u8, 1u8, 1u8, 1u8],
        Instructions::SRA => seq![0u8, 1u8, 1u8, 0u8, 1u8],
        Instructions::SLL => seq![0u8, 0u8, 0u8, 0u8, 1u8],
        Instructions::SRL => seq![0u8, 0u8, 1u8, 0u8, 1u8],
        Instructions::SLTS => seq![0u8, 0u8, 0u8, 1u8, 0u8],
        Instructions::SLTU => seq![0u8, 0u8, 0u8, 1u8, 1u8],
        Instructions::BLT => seq![1u8, 1u8, 1u8, 0u8, 0u8],
        Instructions::BLTU => seq![1u8, 1u8, 1u8, 1u8, 0u8],
        Instructions::BGE => seq![1u8, 1u8, 1u8, 0u8, 1u8],
        Instructions::BGEU => seq![1u8, 1u8, 1u8, 1u8, 1u8],
        Instructions::BEQ => seq![1u8, 1u8, 0u8, 0u8, 0u8],
        Instructions::BNE => seq![1u8, 1u8, 0u8, 0u8, 1u8],
        _ => seq![0u8, 0u8, 0u8, 0u8, 0u8],
    }
}

fn bits5(b4: u8, b3: u8, b2: u8, b1: u8, b0: u8) -> (r: Vec<u8>)
    ensures
        r@ =~= seq![b4, b3, b2, b1, b0],
{
    let mut r: Vec<u8> = Vec::new();
    r.push(b4);
    r.push(b3);
    r.push(b2);
    r.push(b1);
    r.push(b0);
    r
}

/// The ALU operation code of a compute, branch or jump mnemonic, as a bit
/// array.
pub fn get_alu_op(operation: &Instructions) -> (r: Vec<u8>)
    requires
        !(spec_type_of(*operation) is Li),
        !(spec_type_of(*operation) is In),
    ensures
        r@ == spec_alu_bits(*operation),
        r@.len() == 5,
        forall|t: int| 0 <= t < r@.len() ==> r@[t] <= 1,
{
    match operation {
        Instructions::ADD => bits5(0, 0, 0, 0, 0),
        Instructions::SUB => bits5(0, 1, 0, 0, 0),
        Instructions::XOR => bits5(0, 0, 1, 0, 0),
        Instructions::OR => bits5(0, 0, 1, 1, 0),
        Instructions::AND => bits5(0, 0, 1, 1, 1),
        Instructions::SRA => bits5(0, 1, 1, 0, 1),
        Instructions::SLL => bits5(0, 0, 0, 0, 1),
        Instructions::SRL => bits5(0, 0, 1, 0, 1),
        Instructions::SLTS => bits5(0, 0, 0, 1, 0),
        Instructions::SLTU => bits5(0, 0, 0, 1, 1),
        Instructions::BLT => bits5(1, 1, 1, 0, 0),
        Instructions::BLTU => bits5(1, 1, 1, 1, 0),
        Instructions::BGE => bits5(1, 1, 1, 0, 1),
        Instructions::BGEU => bits5(1, 1, 1, 1, 1),
        Instructions::BEQ => bits5(1, 1, 0, 0, 0),
        Instructions::BNE => bits5(1, 1, 0, 0, 1),
        _ => bits5(0, 0, 0, 0, 0),
    }
}

/// The value of an unsigned two's-complement byte standing for a signed
/// 8-bit quantity.
pub open spec fn byte_of_i8(v: int) -> int {
    if v < 0 {
        v + 256
    } else {
        v
    }
}

/// The k low bits of a non-negative number, most significant first.
pub open spec fn bits_of(n: int, k: nat) -> Seq<u8>
    decreases k,
{
    if k == 0 {
        Seq::empty()
    } else {
        bits_of(n / 2, (k - 1) as nat) + seq![(n % 2) as u8]
    }
}

/// A run of zero bits.
pub open spec fn zero_bits(k: nat) -> Seq<u8> {
    Seq::new(k, |i: int| 0u8)
}

pub proof fn lemma_bits_of_wf(n: int, k: nat)
    ensures
        bits_of(n, k).len() == k,
        forall|t: int| 0 <= t < k ==> bits_of(n, k)[t] <= 1,
    decreases k,
{
    if k > 0 {
        lemma_bits_of_wf(n / 2, (k - 1) as nat);
    }
}

/// Computes the k low bits of `n`, most significant first.
pub fn bits_rec(n: u8, k: usize) -> (r: Vec<u8>)
    ensures
        r@ == bits_of(n as int, k as nat),
        r@.len() == k,
        forall|t: int| 0 <= t < r@.len() ==> r@[t] <= 1,
    decreases k,
{
    if k == 0 {
        let r: Vec<u8> = Vec::new();
        assert(r@ =~= bits_of(n as int, 0));
        r
    } else {
        let mut r = bits_rec(n / 2, k - 1);
        r.push(n % 2);
        proof {
            assert(r@ =~= bits_of(n as int, k as nat));
        }
        r
    }
}

/// Value of a bit array read most significant bit first.
pub open spec fn word_val(bits: Seq<u8>) -> int
    decreases bits.len(),
{
    if bits.len() == 0 {
        0
    } else {
        word_val(bits.drop_last()) * 2 + bits.last()
    }
}

pub proof fn lemma_word_val_bound(bits: Seq<u8>)
    requires
        forall|t: int| 0 <= t < bits.len() ==> bits[t] <= 1,
    ensures
        0 <= word_val(bits) < pow2(bits.len()),
    decreases bits.len(),
{
    if bits.len() == 0 {
        assert(pow2(0) == 1) by {
            lemma2_to64();
        }
    } else {
        lemma_word_val_bound(bits.drop_last());
        lemma_pow2_unfold(bits.len());
    }
}

/// Appends `cnt` zero-filled bit positions.
pub fn fill_binary_array(array: &mut Vec<u8>, cnt: u32)
    ensures
        final(array)@ == old(array)@ + zero_bits(cnt as nat),
{
    let mut k: u32 = 0;
    proof {
        assert(array@ =~= old(array)@ + zero_bits(0));
    }
    while k < cnt
        invariant
            0 <= k <= cnt,
            array@ == old(array)@ + zero_bits(k as nat),
        decreases cnt - k,
    {
        array.push(0);
        k += 1;
        proof {
            assert(array@ =~= old(array)@ + zero_bits(k as nat));
        }
    }
}

/// Reads a signed decimal operand and yields its 8-bit two's-complement
/// pattern, most significant bit first; nothing when the text is not a
/// decimal integer in the signed 8-bit range.
pub fn string_to_binary_array(data: &str) -> (r: Option<Vec<u8>>)
    ensures
        match r {
            Some(bits) => parse_i8(data@) is Some && bits@ == bits_of(
                byte_of_i8(parse_i8(data@)->Some_0),
                8,
            ),
            None => parse_i8(data@) is None,
        },
{
    match parse_i8_str(data) {
        None => None,
        Some(v) => {
            let byte: u8 = if v >= 0 {
                v as u8
            } else {
                ((v as i16) + 256) as u8
            };
            proof {
                assert(byte as int == byte_of_i8(v as int));
            }
            Some(bits_rec(byte, 8))
        },
    }
}

/// Folds a bit array into one 32-bit word, bit 31 first; shorter arrays
/// fill the most significant positions, as the layout tables read.
pub fn binary_array_to_int(binary_data: &Vec<u8>) -> (value: u32)
    requires
        binary_data@.len() <= 32,
        forall|t: int| 0 <= t < binary_data@.len() ==> binary_data@[t] <= 1,
    ensures
        value as int == word_val(binary_data@) * pow2((32 - binary_data@.len()) as nat),
{
    let n = binary_data.len();
    let mut value: u32 = 0;
    let mut i: usize = 0;
    proof {
        assert(binary_data@.take(0) =~= Seq::<u8>::empty());
        lemma2_to64();
    }
    while i < n
        invariant
            0 <= i <= n <= 32,
            n == binary_data@.len(),
            forall|t: int| 0 <= t < binary_data@.len() ==> binary_data@[t] <= 1,
            value as int == word_val(binary_data@.take(i as int)),
            value < pow2(i as nat),
        decreases n - i,
    {
        let ghost pre = binary_data@.take(i as int);
        let ghost cur = binary_data@.take(i as int + 1);
        proof {
            assert(cur.drop_last() =~= pre);
            assert(cur.last() == binary_data@[i as int]);
            assert(forall|t: int| 0 <= t < cur.len() ==> cur[t] <= 1);
            lemma_word_val_bound(cur);
            lemma_pow2_unfold((i + 1) as nat);
            assert(pow2((i + 1) as nat) <= pow2(32)) by {
                if ((i + 1) as nat) < 32 {
                    vstd::arithmetic::power2::lemma_pow2_strictly_increases(
                        (i + 1) as nat,
                        32,
                    );
                }
            }
            lemma2_to64();
        }
        value = value * 2 + binary_data[i] as u32;
        i += 1;
    }
    let ghost w = word_val(binary_data@);
    proof {
        assert(binary_data@.take(n as int) =~= binary_data@);
        assert(pow2(0) == 1) by {
            lemma2_to64();
        }
        vstd::arithmetic::mul::lemma_mul_basics(w);
    }
    let mut j: usize = n;
    while j < 32
        invariant
            n <= j <= 32,
            n == binary_data@.len(),
            w == word_val(binary_data@),
            0 <= w < pow2(n as nat),
            value as int == w * pow2((j - n) as nat),
        decreases 32 - j,
    {
        let ghost p = pow2((j - n) as nat) as int;
        proof {
            vstd::arithmetic::power2::lemma_pow2_pos((j - n) as nat);
            lemma_pow2_adds(n as nat, (j - n) as nat);
            vstd::arithmetic::mul::lemma_mul_strict_inequality(w, pow2(n as nat) as int, p);
            assert(w * p < pow2(j as nat));
            assert(pow2(j as nat) <= pow2(31)) by {
                if (j as nat) < 31 {
                    vstd::arithmetic::power2::lemma_pow2_strictly_increases(j as nat, 31);
                }
            }
            lemma2_to64();
        }
        value = value * 2;
        j += 1;
        proof {
            lemma_pow2_unfold((j - n) as nat);
            assert(w * (2 * p) == (w * p) * 2) by (nonlinear_arith);
            assert(value as int == w * pow2((j - n) as nat));
        }
    }
    value
}

/// Compute-class layout: class tag 000, write-select 1, ALU code, rs1,
/// rs2, an 8-bit zero-filled field, rd.
pub open spec fn spec_compute_bits(m: Instructions, rd: int, rs1: int, rs2: int) -> Seq<u8> {
    zero_bits(3) + seq![1u8] + spec_alu_bits(m) + bits_of(rs1, 5) + bits_of(rs2, 5) + zero_bits(8)
        + bits_of(rd, 5)
}

/// Branch-class layout: class tag 010, write-select 0, ALU code, rs1, rs2,
/// the signed 8-bit displacement, a 5-bit zero-filled field.
pub open spec fn spec_branch_bits(m: Instructions, rs1: int, rs2: int, off: int) -> Seq<u8> {
    seq![0u8, 1u8, 0u8] + seq![0u8] + spec_alu_bits(m) + bits_of(rs1, 5) + bits_of(rs2, 5)
        + bits_of(byte_of_i8(off), 8) + zero_bits(5)
}

/// Jump layout: class tag 100, write-select 0, a zero ALU code, ten zero
/// bits, the signed 8-bit displacement, a 5-bit zero-filled field.
pub open spec fn spec_jump_bits(off: int) -> Seq<u8> {
    seq![1u8, 0u8, 0u8] + seq![0u8] + spec_alu_bits(Instructions::J) + zero_bits(10) + bits_of(
        byte_of_i8(off),
        8,
    ) + zero_bits(5)
}

/// The 32 bits of one record's word, or the reason the record has no word:
/// load-immediate and the I/O pseudo-ops have no defined layout, and every
/// operand must read back as the number its field needs.
pub open spec fn spec_encode_cmd(c: CommandV) -> Result<Seq<u8>, ErrKind> {
    match spec_type_of(c.instruction) {
        InstructionType::Compute => if c.arguments.len() != 3 {
            Err(ErrKind::ArgCountMismatch)
        } else if reg_index_of(c.arguments[0].c_value) is None || reg_index_of(
            c.arguments[1].c_value,
        ) is None || reg_index_of(c.arguments[2].c_value) is None {
            Err(ErrKind::InvalidRegisterOperand)
        } else {
            Ok(
                spec_compute_bits(
                    c.instruction,
                    reg_index_of(c.arguments[0].c_value)->Some_0,
                    reg_index_of(c.arguments[1].c_value)->Some_0,
                    reg_index_of(c.arguments[2].c_value)->Some_0,
                ),
            )
        },
        InstructionType::Branch => if c.arguments.len() != 3 {
            Err(ErrKind::ArgCountMismatch)
        } else if reg_index_of(c.arguments[0].c_value) is None || reg_index_of(
            c.arguments[1].c_value,
        ) is None {
            Err(ErrKind::InvalidRegisterOperand)
        } else if parse_i8(c.arguments[2].c_value) is None {
            Err(ErrKind::InvalidNumericOperand)
        } else {
            Ok(
                spec_branch_bits(
                    c.instruction,
                    reg_index_of(c.arguments[0].c_value)->Some_0,
                    reg_index_of(c.arguments[1].c_value)->Some_0,
                    parse_i8(c.arguments[2].c_value)->Some_0,
                ),
            )
        },
        InstructionType::Jump => if c.arguments.len() != 1 {
            Err(ErrKind::ArgCountMismatch)
        } else if parse_i8(c.arguments[0].c_value) is None {
            Err(ErrKind::InvalidNumericOperand)
        } else {
            Ok(spec_jump_bits(parse_i8(c.arguments[0].c_value)->Some_0))
        },
        InstructionType::Li => Err(ErrKind::UnsupportedInstruction),
        InstructionType::In => Err(ErrKind::UnsupportedInstruction),
    }
}

fn encode_err(command: &Command, kind: ErrKind) -> (e: AsmError)
    ensures
        e@ == (AsmErrorV { kind, line: command@.text, index: command@.index }),
{
    AsmError { kind, line: command.text.clone(), index: command.index }
}

/// Builds the one word of one record, or the structured error naming it.
fn encode_one(command: &Command) -> (r: Result<u32, AsmError>)
    ensures
        match r {
            Ok(w) => spec_encode_cmd(command@) is Ok && w as int == word_val(
                spec_encode_cmd(command@)->Ok_0,
            ),
            Err(e) => spec_encode_cmd(command@) is Err && e@ == (AsmErrorV {
                kind: spec_encode_cmd(command@)->Err_0,
                line: command@.text,
                index: command@.index,
            }),
        },
{
    let mut arr: Vec<u8> = Vec::new();
    match instruction_type_of(&command.instruction) {
        InstructionType::Compute => {
            if command.arguments.len() != 3 {
                return Err(encode_err(command, ErrKind::ArgCountMismatch));
            }
            let rd = match parse_reg_index(command.arguments[0].c_value.as_str()) {
                Some(v) => v,
                None => {
                    return Err(encode_err(command, ErrKind::InvalidRegisterOperand));
                },
            };
            let rs1 = match parse_reg_index(command.arguments[1].c_value.as_str()) {
                Some(v) => v,
                None => {
                    return Err(encode_err(command, ErrKind::InvalidRegisterOperand));
                },
            };
            let rs2 = match parse_reg_index(command.arguments[2].c_value.as_str()) {
                Some(v) => v,
                None => {
                    return Err(encode_err(command, ErrKind::InvalidRegisterOperand));
                },
            };
            fill_binary_array(&mut arr, 3);
            arr.push(1);
            let mut alu = get_alu_op(&command.instruction);
            arr.append(&mut alu);
            let mut b1 = bits_rec(rs1, 5);
            arr.append(&mut b1);
            let mut b2 = bits_rec(rs2, 5);
            arr.append(&mut b2);
            fill_binary_array(&mut arr, 8);
            let mut b0 = bits_rec(rd, 5);
            arr.append(&mut b0);
            proof {
                assert(arr@ =~= spec_compute_bits(
                    command@.instruction,
                    rd as int,
                    rs1 as int,
                    rs2 as int,
                ));
                assert(arr@.len() == 32);
                assert(forall|t: int| 0 <= t < arr@.len() ==> arr@[t] <= 1);
            }
        },
        InstructionType::Branch => {
            if command.arguments.len() != 3 {
                return Err(encode_err(command, ErrKind::ArgCountMismatch));
            }
            let rs1 = match parse_reg_index(command.arguments[0].c_value.as_str()) {
                Some(v) => v,
                None => {
                    return Err(encode_err(command, ErrKind::InvalidRegisterOperand));
                },
            };
            let rs2 = match parse_reg_index(command.arguments[1].c_value.as_str()) {
                Some(v) => v,
                None => {
                    return Err(encode_err(command, ErrKind::InvalidRegisterOperand));
                },
            };
            let off_bits = match string_to_binary_array(command.arguments[2].c_value.as_str()) {
                Some(bits) => bits,
                None => {
                    return Err(encode_err(command, ErrKind::InvalidNumericOperand));
                },
            };
            arr.push(0);
            arr.push(1);
            arr.push(0);
            arr.push(0);
            let mut alu = get_alu_op(&command.instruction);
            arr.append(&mut alu);
            let mut b1 = bits_rec(rs1, 5);
            arr.append(&mut b1);
            let mut b2 = bits_rec(rs2, 5);
            arr.append(&mut b2);
            let mut ob = off_bits;
            arr.append(&mut ob);
            fill_binary_array(&mut arr, 5);
            proof {
                lemma_bits_of_wf(
                    byte_of_i8(parse_i8(command@.arguments[2].c_value)->Some_0),
                    8,
                );
                assert(arr@ =~= spec_branch_bits(
                    command@.instruction,
                    rs1 as int,
                    rs2 as int,
                    parse_i8(command@.arguments[2].c_value)->Some_0,
                ));
                assert(arr@.len() == 32);
                assert(forall|t: int| 0 <= t < arr@.len() ==> arr@[t] <= 1);
            }
        },
        InstructionType::Jump => {
            if command.arguments.len() != 1 {
                return Err(encode_err(command, ErrKind::ArgCountMismatch));
            }
            let off_bits = match string_to_binary_array(command.arguments[0].c_value.as_str()) {
                Some(bits) => bits,
                None => {
                    return Err(encode_err(command, ErrKind::InvalidNumericOperand));
                },
            };
            arr.push(1);
            arr.push(0);
            arr.push(0);
            arr.push(0);
            let mut alu = get_alu_op(&command.instruction);
            arr.append(&mut alu);
            fill_binary_array(&mut arr, 10);
            let mut ob = off_bits;
            arr.append(&mut ob);
            fill_binary_array(&mut arr, 5);
            proof {
                lemma_bits_of_wf(
                    byte_of_i8(parse_i8(command@.arguments[0].c_value)->Some_0),
                    8,
                );
                assert(arr@ =~= spec_jump_bits(parse_i8(command@.arguments[0].c_value)->Some_0));
                assert(arr@.len() == 32);
                assert(forall|t: int| 0 <= t < arr@.len() ==> arr@[t] <= 1);
            }
        },
        InstructionType::Li => {
            return Err(encode_err(command, ErrKind::UnsupportedInstruction));
        },
        InstructionType::In => {
            return Err(encode_err(command, ErrKind::UnsupportedInstruction));
        },
    }
    proof {
        assert(arr@.len() == 32);
        assert(forall|t: int| 0 <= t < arr@.len() ==> arr@[t] <= 1);
    }
    let w = binary_array_to_int(&arr);
    proof {
        assert(pow2(0) == 1) by {
            lemma2_to64();
        }
        vstd::arithmetic::mul::lemma_mul_basics(word_val(arr@));
    }
    Ok(w)
}

/// The word sequence of a whole record sequence, in order, or the first
/// record's error.
pub open spec fn spec_encode_cmds(cs: Seq<CommandV>) -> Result<Seq<u32>, AsmErrorV>
    decreases cs.len(),
{
    if cs.len() == 0 {
        Ok(Seq::empty())
    } else {
        match spec_encode_cmd(cs[0]) {
            Err(k) => Err(AsmErrorV { kind: k, line: cs[0].text, index: cs[0].index }),
            Ok(bits) => match spec_encode_cmds(cs.drop_first()) {
                Ok(ws) => Ok(seq![word_val(bits) as u32] + ws),
                Err(e) => Err(e),
            },
        }
    }
}

/// Prepends already-emitted words to an encoding result.
pub open spec fn enc_combine(r: Result<Seq<u32>, AsmErrorV>, ws: Seq<u32>) -> Result<
    Seq<u32>,
    AsmErrorV,
> {
    match r {
        Ok(rest) => Ok(ws + rest),
        Err(e) => Err(e),
    }
}

/// Encodes a resolved record sequence into one 32-bit word per record, in
/// record order, or reports the first record that cannot be represented.
pub fn encode_commands(commands: &Vec<Command>) -> (r: Result<Vec<u32>, AsmError>)
    ensures
        match r {
            Ok(ws) => spec_encode_cmds(commands.deep_view()) == Ok::<Seq<u32>, AsmErrorV>(ws@),
            Err(e) => spec_encode_cmds(commands.deep_view()) == Err::<Seq<u32>, AsmErrorV>(e@),
        },
{
    let ghost all = commands.deep_view();
    let mut words: Vec<u32> = Vec::new();
    let n = commands.len();
    let mut i: usize = 0;
    proof {
        assert(all.skip(0) =~= all);
        assert(words@ =~= Seq::<u32>::empty());
        let r0 = spec_encode_cmds(all);
        if r0 is Ok {
            assert(Seq::<u32>::empty() + r0->Ok_0 =~= r0->Ok_0);
        }
    }
    while i < n
        invariant
            0 <= i <= n,
            n == all.len(),
            commands.deep_view() == all,
            spec_encode_cmds(all) == enc_combine(spec_encode_cmds(all.skip(i as int)), words@),
        decreases n - i,
    {
        let ghost suf = all.skip(i as int);
        let ghost old_words = words@;
        proof {
            assert(suf[0] == all[i as int]);
            assert(suf.drop_first() =~= all.skip(i as int + 1));
            assert(commands@[i as int]@ == all[i as int]);
        }
        match encode_one(&commands[i]) {
            Ok(w) => {
                words.push(w);
                proof {
                    let rr = spec_encode_cmds(all.skip(i as int + 1));
                    if rr is Ok {
                        assert(old_words + (seq![w] + rr->Ok_0) =~= old_words.push(w) + rr->Ok_0);
                    }
                }
            },
            Err(e) => {
                proof {
                    assert(spec_encode_cmds(suf) == Err::<Seq<u32>, AsmErrorV>(e@));
                }
                return Err(e);
            },
        }
        i += 1;
    }
    proof {
        assert(all.skip(n as int) =~= Seq::<CommandV>::empty());
        assert(words@ + Seq::<u32>::empty() =~= words@);
    }
    Ok(words)
}

/// For every valid compute record, the emitted word's class-tag bits are
/// 000, the write-select bit is 1, and the ALU field is the mnemonic's
/// fixed code.
pub proof fn lemma_compute_word_layout(c: CommandV)
    requires
        spec_type_of(c.instruction) is Compute,
        spec_encode_cmd(c) is Ok,
    ensures
        ({
            let bits = spec_encode_cmd(c)->Ok_0;
            &&& bits.len() == 32
            &&& bits[0] == 0 && bits[1] == 0 && bits[2] == 0
            &&& bits[3] == 1
            &&& bits.subrange(4, 9) == spec_alu_bits(c.instruction)
        }),
{
    let bits = spec_encode_cmd(c)->Ok_0;
    lemma_alu_bits_wf(c.instruction);
    lemma_bits_of_wf(reg_index_of(c.arguments[0].c_value)->Some_0, 5);
    lemma_bits_of_wf(reg_index_of(c.arguments[1].c_value)->Some_0, 5);
    lemma_bits_of_wf(reg_index_of(c.arguments[2].c_value)->Some_0, 5);
    assert(bits.subrange(4, 9) =~= spec_alu_bits(c.instruction));
}

/// For every valid branch record, the class-tag bits are 010, the
/// write-select bit is 0, the ALU field is the mnemonic's fixed code, and
/// the displacement field holds the 8-bit two's-complement pattern of the
/// record's resolved displacement.
pub proof fn lemma_branch_word_layout(c: CommandV)
    requires
        spec_type_of(c.instruction) is Branch,
        spec_encode_cmd(c) is Ok,
    ensures
        ({
            let bits = spec_encode_cmd(c)->Ok_0;
            &&& bits.len() == 32
            &&& bits[0] == 0 && bits[1] == 1 && bits[2] == 0
            &&& bits[3] == 0
            &&& bits.subrange(4, 9) == spec_alu_bits(c.instruction)
            &&& bits.subrange(19, 27) == bits_of(
                byte_of_i8(parse_i8(c.arguments[2].c_value)->Some_0),
                8,
            )
        }),
{
    let bits = spec_encode_cmd(c)->Ok_0;
    lemma_alu_bits_wf(c.instruction);
    lemma_bits_of_wf(reg_index_of(c.arguments[0].c_value)->Some_0, 5);
    lemma_bits_of_wf(reg_index_of(c.arguments[1].c_value)->Some_0, 5);
    lemma_bits_of_wf(byte_of_i8(parse_i8(c.arguments[2].c_value)->Some_0), 8);
    assert(bits.subrange(4, 9) =~= spec_alu_bits(c.instruction));
    assert(bits.subrange(19, 27) =~= bits_of(
        byte_of_i8(parse_i8(c.arguments[2].c_value)->Some_0),
        8,
    ));
}

pub proof fn lemma_alu_bits_wf(m: Instructions)
    ensures
        spec_alu_bits(m).len() == 5,
        forall|t: int| 0 <= t < 5 ==> spec_alu_bits(m)[t] <= 1,
{
    match m {
        Instructions::ADD => assert(spec_alu_bits(m).len() == 5),
        Instructions::SUB => assert(spec_alu_bits(m).len() == 5),
        Instructions::XOR => assert(spec_alu_bits(m).len() == 5),
        Instructions::OR => assert(spec_alu_bits(m).len() == 5),
        Instructions::AND => assert(spec_alu_bits(m).len() == 5),
        Instructions::SRA => assert(spec_alu_bits(m).len() == 5),
        Instructions::SLL => assert(spec_alu_bits(m).len() == 5),
        Instructions::SRL => assert(spec_alu_bits(m).len() == 5),
        Instructions::SLTS => assert(spec_alu_bits(m).len() == 5),
        Instructions::SLTU => assert(spec_alu_bits(m).len() == 5),
        Instructions::BLT => assert(spec_alu_bits(m).len() == 5),
        Instructions::BLTU => assert(spec_alu_bits(m).len() == 5),
        Instructions::BGE => assert(spec_alu_bits(m).len() == 5),
        Instructions::BGEU => assert(spec_alu_bits(m).len() == 5),
        Instructions::BEQ => assert(spec_alu_bits(m).len() == 5),
        Instructions::BNE => assert(spec_alu_bits(m).len() == 5),
        Instructions::LI => assert(spec_alu_bits(m).len() == 5),
        Instructions::J => assert(spec_alu_bits(m).len() == 5),
        Instructions::CIN => assert(spec_alu_bits(m).len() == 5),
        Instructions::COUT => assert(spec_alu_bits(m).len() == 5),
    }
}

/// A resolved label displacement survives the trip through its decimal
/// rendering: label resolution writes `label index - instruction index` as
/// text, and the encoder's numeric read yields exactly that value whenever
/// it fits the signed 8-bit field, and rejects it otherwise.
pub proof fn lemma_branch_displacement(c: CommandV, ls: Seq<LabelV>, j: int, li: u32)
    requires
        c.has_label,
        last_label_arg(c.arguments) == Some(j),
        0 <= j < c.arguments.len(),
        lookup_label(ls, c.arguments[j].c_value) == Some(li),
    ensures
        spec_fill_labels(c, ls) is Ok,
        parse_int(spec_fill_labels(c, ls)->Ok_0.arguments[j].c_value) == Some(
            li as int - c.index as int,
        ),
        -128 <= li as int - c.index as int <= 127 ==> parse_i8(
            spec_fill_labels(c, ls)->Ok_0.arguments[j].c_value,
        ) == Some(li as int - c.index as int),
        !(-128 <= li as int - c.index as int <= 127) ==> parse_i8(
            spec_fill_labels(c, ls)->Ok_0.arguments[j].c_value,
        ) is None,
{
    lemma_dec_parse_round_trip(li as int - c.index as int);
}

pub proof fn lemma_word_val_zero(k: nat)
    ensures
        word_val(zero_bits(k)) == 0,
    decreases k,
{
    if k > 0 {
        assert(zero_bits(k).drop_last() =~= zero_bits((k - 1) as nat));
        assert(zero_bits(k).last() == 0);
        lemma_word_val_zero((k - 1) as nat);
    }
}

/// Concatenated bit fields fold independently: the left field shifts past
/// the right one.
pub proof fn lemma_word_val_concat(a: Seq<u8>, b: Seq<u8>)
    ensures
        word_val(a + b) == word_val(a) * pow2(b.len()) + word_val(b),
    decreases b.len(),
{
    if b.len() == 0 {
        assert(a + b =~= a);
        assert(pow2(0) == 1) by {
            lemma2_to64();
        }
        vstd::arithmetic::mul::lemma_mul_basics(word_val(a));
    } else {
        let b0 = b.drop_last();
        assert((a + b).drop_last() =~= a + b0);
        assert((a + b).last() == b.last());
        lemma_word_val_concat(a, b0);
        lemma_pow2_unfold(b.len());
        let x = word_val(a);
        let p = pow2(b0.len()) as int;
        assert(x * p * 2 == x * (2 * p)) by (nonlinear_arith);
    }
}

/// The bit pattern of a value below `2^k` folds back to the value itself.
pub proof fn lemma_bits_of_val(n: int, k: nat)
    requires
        0 <= n < pow2(k),
    ensures
        word_val(bits_of(n, k)) == n,
    decreases k,
{
    if k == 0 {
        assert(pow2(0) == 1) by {
            lemma2_to64();
        }
    } else {
        lemma_pow2_unfold(k);
        lemma_bits_of_val(n / 2, (k - 1) as nat);
        assert(bits_of(n, k).drop_last() =~= bits_of(n / 2, (k - 1) as nat));
        assert(bits_of(n, k).last() == (n % 2) as u8);
        vstd::arithmetic::div_mod::lemma_fundamental_div_mod(n, 2);
    }
}

/// For every valid compute record, the emitted 32-bit word itself reads
/// back field by field: class tag 000 on top, write-select 1, the
/// mnemonic's ALU code, the two source registers, a zero middle field and
/// the destination register at the bottom.
pub proof fn lemma_compute_word_fields(c: CommandV, w: u32)
    requires
        spec_type_of(c.instruction) is Compute,
        spec_encode_cmd(c) is Ok,
        w as int == word_val(spec_encode_cmd(c)->Ok_0),
    ensures
        w >> 29 == 0,
        (w >> 28) & 1 == 1,
        (w >> 23) & 0x1F == word_val(spec_alu_bits(c.instruction)),
        (w >> 18) & 0x1F == reg_index_of(c.arguments[1].c_value)->Some_0,
        (w >> 13) & 0x1F == reg_index_of(c.arguments[2].c_value)->Some_0,
        w & 0x1F == reg_index_of(c.arguments[0].c_value)->Some_0,
{
    let m = c.instruction;
    let rd = reg_index_of(c.arguments[0].c_value)->Some_0;
    let r1 = reg_index_of(c.arguments[1].c_value)->Some_0;
    let r2 = reg_index_of(c.arguments[2].c_value)->Some_0;
    let alu = spec_alu_bits(m);
    let a = word_val(alu);
    lemma_alu_bits_wf(m);
    lemma_word_val_bound(alu);
    lemma_digits_val_nonneg(c.arguments[0].c_value);
    lemma_digits_val_nonneg(c.arguments[1].c_value);
    lemma_digits_val_nonneg(c.arguments[2].c_value);
    lemma2_to64();
    let z3s1 = zero_bits(3) + seq![1u8];
    let p1 = z3s1 + alu;
    let p2 = p1 + bits_of(r1, 5);
    let p3 = p2 + bits_of(r2, 5);
    let p4 = p3 + zero_bits(8);
    let bits = spec_encode_cmd(c)->Ok_0;
    assert(bits =~= p4 + bits_of(rd, 5));
    lemma_word_val_zero(3);
    lemma_word_val_zero(8);
    assert(seq![1u8].drop_last() =~= Seq::<u8>::empty());
    lemma_word_val_concat(zero_bits(3), seq![1u8]);
    vstd::arithmetic::mul::lemma_mul_basics(pow2(1) as int);
    assert(word_val(seq![1u8]) == 1) by {
        reveal_with_fuel(word_val, 3);
    }
    assert(word_val(z3s1) == 1);
    lemma_word_val_concat(z3s1, alu);
    assert(word_val(p1) == 32 + a);
    lemma_bits_of_wf(r1, 5);
    lemma_bits_of_wf(r2, 5);
    lemma_bits_of_wf(rd, 5);
    lemma_bits_of_val(r1, 5);
    lemma_bits_of_val(r2, 5);
    lemma_bits_of_val(rd, 5);
    lemma_word_val_concat(p1, bits_of(r1, 5));
    lemma_word_val_concat(p2, bits_of(r2, 5));
    lemma_word_val_concat(p3, zero_bits(8));
    lemma_word_val_concat(p4, bits_of(rd, 5));
    let au = a as u32;
    let r1u = r1 as u32;
    let r2u = r2 as u32;
    let rdu = rd as u32;
    assert(w == ((((32 + au) * 32 + r1u) * 32 + r2u) * 256) * 32 + rdu);
    assert((w >> 29 == 0) && ((w >> 28) & 1 == 1) && ((w >> 23) & 0x1F == au) && ((w >> 18) & 0x1F
        == r1u) && ((w >> 13) & 0x1F == r2u) && (w & 0x1F == rdu)) by (bit_vector)
        requires
            w == ((((32 + au) * 32 + r1u) * 32 + r2u) * 256) * 32 + rdu,
            au < 32,
            r1u < 32,
            r2u < 32,
            rdu < 32,
    ;
}

/// For every valid branch record, the emitted 32-bit word itself reads
/// back field by field: class tag 010, write-select 0, the mnemonic's ALU
/// code, the two source registers, and the two's-complement displacement
/// byte just above the zero bottom field.
pub proof fn lemma_branch_word_fields(c: CommandV, w: u32)
    requires
        spec_type_of(c.instruction) is Branch,
        spec_encode_cmd(c) is Ok,
        w as int == word_val(spec_encode_cmd(c)->Ok_0),
    ensures
        w >> 29 == 2,
        (w >> 28) & 1 == 0,
        (w >> 23) & 0x1F == word_val(spec_alu_bits(c.instruction)),
        (w >> 18) & 0x1F == reg_index_of(c.arguments[0].c_value)->Some_0,
        (w >> 13) & 0x1F == reg_index_of(c.arguments[1].c_value)->Some_0,
        (w >> 5) & 0xFF == byte_of_i8(parse_i8(c.arguments[2].c_value)->Some_0),
        w & 0x1F == 0,
{
    let m = c.instruction;
    let r1 = reg_index_of(c.arguments[0].c_value)->Some_0;
    let r2 = reg_index_of(c.arguments[1].c_value)->Some_0;
    let ob = byte_of_i8(parse_i8(c.arguments[2].c_value)->Some_0);
    let alu = spec_alu_bits(m);
    let a = word_val(alu);
    lemma_alu_bits_wf(m);
    lemma_word_val_bound(alu);
    lemma_digits_val_nonneg(c.arguments[0].c_value);
    lemma_digits_val_nonneg(c.arguments[1].c_value);
    lemma2_to64();
    let head = seq![0u8, 1u8, 0u8] + seq![0u8];
    let p1 = head + alu;
    let p2 = p1 + bits_of(r1, 5);
    let p3 = p2 + bits_of(r2, 5);
    let p4 = p3 + bits_of(ob, 8);
    let bits = spec_encode_cmd(c)->Ok_0;
    assert(bits =~= p4 + zero_bits(5));
    assert(seq![0u8].drop_last() =~= Seq::<u8>::empty());
    assert(seq![0u8, 1u8].drop_last() =~= seq![0u8]);
    assert(seq![0u8, 1u8, 0u8].drop_last() =~= seq![0u8, 1u8]);
    assert(head.drop_last() =~= seq![0u8, 1u8, 0u8]);
    assert(word_val(head) == 4) by {
        reveal_with_fuel(word_val, 6);
    }
    lemma_word_val_concat(head, alu);
    assert(word_val(p1) == 128 + a);
    lemma_bits_of_wf(r1, 5);
    lemma_bits_of_wf(r2, 5);
    lemma_bits_of_wf(ob, 8);
    lemma_bits_of_val(r1, 5);
    lemma_bits_of_val(r2, 5);
    lemma_bits_of_val(ob, 8);
    lemma_word_val_zero(5);
    lemma_word_val_concat(p1, bits_of(r1, 5));
    lemma_word_val_concat(p2, bits_of(r2, 5));
    lemma_word_val_concat(p3, bits_of(ob, 8));
    lemma_word_val_concat(p4, zero_bits(5));
    let au = a as u32;
    let r1u = r1 as u32;
    let r2u = r2 as u32;
    let obu = ob as u32;
    assert(w == ((((128 + au) * 32 + r1u) * 32 + r2u) * 256 + obu) * 32);
    assert((w >> 29 == 2) && ((w >> 28) & 1 == 0) && ((w >> 23) & 0x1F == au) && ((w >> 18) & 0x1F
        == r1u) && ((w >> 13) & 0x1F == r2u) && ((w >> 5) & 0xFF == obu) && (w & 0x1F == 0)) by (bit_vector)
        requires
            w == ((((128 + au) * 32 + r1u) * 32 + r2u) * 256 + obu) * 32,
            au < 32,
            r1u < 32,
            r2u < 32,
            obu < 256,
    ;
}

/// Encoding is a pure function of the resolved record sequence: encoding
/// equal sequences, in particular the same sequence twice, yields equal
/// word sequences.
pub proof fn lemma_encode_idempotent(a: Seq<CommandV>, b: Seq<CommandV>)
    requires
        a == b,
    ensures
        spec_encode_cmds(a) == spec_encode_cmds(b),
{
}

} // verus!
