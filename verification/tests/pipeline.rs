use assembler::decoder::{
    get_decoded_lines, get_command_instruction, check_command_has_label, command_decoder,
    ArgType, ErrKind, Instructions, InstructionType,
};
use assembler::encoder::{
    encode_commands, get_alu_op, string_to_binary_array, binary_array_to_int, fill_binary_array,
};

#[test]
fn end_to_end_example() {
    let src = "add x1 x2 x3\nloop:\nbeq x1 x2 loop\nj loop\n";
    let cmds = get_decoded_lines(src).expect("decode");
    assert_eq!(cmds.len(), 3);
    assert_eq!(cmds[0].index, 0);
    assert_eq!(cmds[1].index, 1);
    assert_eq!(cmds[2].index, 2);
    assert!(matches!(cmds[0].instruction, Instructions::ADD));
    assert!(matches!(cmds[1].instruction, Instructions::BEQ));
    assert!(matches!(cmds[2].instruction, Instructions::J));
    // label `loop` sits at instruction index 1: beq offset 0, j offset -1
    assert_eq!(cmds[1].arguments[2].c_value, "0");
    assert_eq!(cmds[2].arguments[0].c_value, "-1");
    let words = encode_commands(&cmds).expect("encode");
    assert_eq!(words, vec![0x10086001u32, 0x4C044000u32, 0x80001FE0u32]);
}

#[test]
fn commas_comments_and_blank_lines() {
    let src = "# header comment\n\nadd x1, x2, x3 # trailing comment\n   \n";
    let cmds = get_decoded_lines(src).expect("decode");
    assert_eq!(cmds.len(), 1);
    assert_eq!(cmds[0].index, 0);
    assert_eq!(cmds[0].arguments.len(), 3);
    assert_eq!(cmds[0].arguments[0].c_value, "1");
    assert_eq!(cmds[0].arguments[1].c_value, "2");
    assert_eq!(cmds[0].arguments[2].c_value, "3");
}

#[test]
fn mnemonics_are_case_insensitive() {
    let cmds = get_decoded_lines("ADD x1 x2 x3\nSltU x4 x5 x6\n").expect("decode");
    assert!(matches!(cmds[0].instruction, Instructions::ADD));
    assert!(matches!(cmds[1].instruction, Instructions::SLTU));
}

#[test]
fn classification_follows_the_table() {
    let cmds = get_decoded_lines("add x1 x2 x3\nbne x1 x2 l\nli x1 7\ncin\nj l\nl:\n")
        .expect("decode");
    assert!(matches!(cmds[0].instruction_type, InstructionType::Compute));
    assert!(matches!(cmds[1].instruction_type, InstructionType::Branch));
    assert!(matches!(cmds[2].instruction_type, InstructionType::Li));
    assert!(matches!(cmds[3].instruction_type, InstructionType::In));
    assert!(matches!(cmds[4].instruction_type, InstructionType::Jump));
    assert!(!cmds[0].has_label);
    assert!(cmds[1].has_label);
    assert!(!cmds[2].has_label);
    assert!(!cmds[3].has_label);
    assert!(cmds[4].has_label);
    assert!(matches!(cmds[1].arguments[0].c_type, ArgType::Register));
    assert!(matches!(cmds[1].arguments[1].c_type, ArgType::Register));
    assert!(matches!(cmds[1].arguments[2].c_type, ArgType::Label));
    assert!(matches!(cmds[2].arguments[1].c_type, ArgType::Constant));
    assert_eq!(cmds[3].arguments.len(), 0);
}

#[test]
fn mnemonic_listing_text() {
    assert_eq!(Instructions::ADD.text(), "ADD");
    assert_eq!(Instructions::SLTU.text(), "SLTU");
    assert_eq!(Instructions::COUT.text(), "COUT");
}

#[test]
fn mnemonic_of_a_line_round_trips() {
    let line = String::from("beq x1 x2 loop");
    let m = get_command_instruction(&line).expect("known mnemonic");
    assert!(matches!(m, Instructions::BEQ));
    assert!(check_command_has_label(&m));
    let unknown = String::from("frob x1 x2");
    assert!(get_command_instruction(&unknown).is_none());
}

#[test]
fn register_boundary_x31_ok_x32_rejected() {
    let cmds = get_decoded_lines("add x31 x0 x1\n").expect("decode");
    assert_eq!(cmds[0].arguments[0].c_value, "31");
    let err = get_decoded_lines("add x32 x0 x1\n").unwrap_err();
    assert_eq!(err.kind, ErrKind::InvalidRegisterOperand);
    assert_eq!(err.index, 0);
}

#[test]
fn register_without_prefix_rejected() {
    let err = get_decoded_lines("add x1 x2 y3\n").unwrap_err();
    assert_eq!(err.kind, ErrKind::InvalidRegisterOperand);
}

#[test]
fn unknown_mnemonic_reported_with_line() {
    let err = get_decoded_lines("add x1 x2 x3\nfrob x1\n").unwrap_err();
    assert_eq!(err.kind, ErrKind::UnknownMnemonic);
    assert_eq!(err.index, 1);
    assert_eq!(err.line, "frob x1");
}

#[test]
fn wrong_arity_reported() {
    let err = get_decoded_lines("add x1 x2\n").unwrap_err();
    assert_eq!(err.kind, ErrKind::ArgCountMismatch);
    let err2 = get_decoded_lines("j\n").unwrap_err();
    assert_eq!(err2.kind, ErrKind::ArgCountMismatch);
}

#[test]
fn unresolved_label_reported() {
    let err = get_decoded_lines("j nowhere\n").unwrap_err();
    assert_eq!(err.kind, ErrKind::UnresolvedLabel);
    assert_eq!(err.index, 0);
}

#[test]
fn forward_and_backward_references_resolve() {
    let fwd = get_decoded_lines("beq x1 x2 fwd\nadd x1 x1 x1\nfwd:\n").expect("decode");
    assert_eq!(fwd[0].arguments[2].c_value, "2");
    let back = get_decoded_lines("back:\nadd x1 x1 x1\nbeq x1 x2 back\n").expect("decode");
    assert_eq!(back[1].arguments[2].c_value, "-1");
}

#[test]
fn branch_offset_boundaries() {
    // a branch at index 0 to a label 127 instructions ahead encodes exactly
    let mut src = String::from("beq x0 x0 far\n");
    for _ in 0..126 {
        src.push_str("add x1 x1 x1\n");
    }
    src.push_str("far:\n");
    let cmds = get_decoded_lines(&src).expect("decode");
    assert_eq!(cmds[0].arguments[2].c_value, "127");
    let words = encode_commands(&cmds).expect("encode");
    assert_eq!(words[0], 0x4C000FE0);

    // one instruction further: +128 no longer fits the signed 8-bit field
    let mut src2 = String::from("beq x0 x0 far\n");
    for _ in 0..127 {
        src2.push_str("add x1 x1 x1\n");
    }
    src2.push_str("far:\n");
    let cmds2 = get_decoded_lines(&src2).expect("decode");
    assert_eq!(cmds2[0].arguments[2].c_value, "128");
    let err = encode_commands(&cmds2).unwrap_err();
    assert_eq!(err.kind, ErrKind::InvalidNumericOperand);
    assert_eq!(err.index, 0);

    // a branch 128 instructions back encodes; 129 back does not
    let mut src3 = String::from("far:\n");
    for _ in 0..128 {
        src3.push_str("add x1 x1 x1\n");
    }
    src3.push_str("beq x0 x0 far\n");
    let cmds3 = get_decoded_lines(&src3).expect("decode");
    assert_eq!(cmds3[128].arguments[2].c_value, "-128");
    assert!(encode_commands(&cmds3).is_ok());

    let mut src4 = String::from("far:\n");
    for _ in 0..129 {
        src4.push_str("add x1 x1 x1\n");
    }
    src4.push_str("beq x0 x0 far\n");
    let cmds4 = get_decoded_lines(&src4).expect("decode");
    assert_eq!(cmds4[129].arguments[2].c_value, "-129");
    let err4 = encode_commands(&cmds4).unwrap_err();
    assert_eq!(err4.kind, ErrKind::InvalidNumericOperand);
}

#[test]
fn eight_bit_field_boundaries() {
    assert!(string_to_binary_array("127").is_some());
    assert!(string_to_binary_array("-128").is_some());
    assert!(string_to_binary_array("128").is_none());
    assert!(string_to_binary_array("129").is_none());
    assert!(string_to_binary_array("-129").is_none());
    assert!(string_to_binary_array("12a").is_none());
    assert!(string_to_binary_array("").is_none());
    assert_eq!(string_to_binary_array("-1").unwrap(), vec![1, 1, 1, 1, 1, 1, 1, 1]);
    assert_eq!(string_to_binary_array("5").unwrap(), vec![0, 0, 0, 0, 0, 1, 0, 1]);
}

#[test]
fn unsupported_instructions_reported_by_encoder() {
    let cmds = get_decoded_lines("li x1 5\n").expect("decode");
    let err = encode_commands(&cmds).unwrap_err();
    assert_eq!(err.kind, ErrKind::UnsupportedInstruction);
    let cmds2 = get_decoded_lines("cin\n").expect("decode");
    let err2 = encode_commands(&cmds2).unwrap_err();
    assert_eq!(err2.kind, ErrKind::UnsupportedInstruction);
}

#[test]
fn encoding_is_idempotent() {
    let cmds = get_decoded_lines("add x1 x2 x3\nloop:\nbeq x1 x2 loop\nj loop\n").expect("decode");
    let first = encode_commands(&cmds).expect("encode");
    let second = encode_commands(&cmds).expect("encode");
    assert_eq!(first, second);
}

#[test]
fn alu_codes_match_the_fixed_table() {
    assert_eq!(get_alu_op(&Instructions::ADD), vec![0, 0, 0, 0, 0]);
    assert_eq!(get_alu_op(&Instructions::SUB), vec![0, 1, 0, 0, 0]);
    assert_eq!(get_alu_op(&Instructions::XOR), vec![0, 0, 1, 0, 0]);
    assert_eq!(get_alu_op(&Instructions::OR), vec![0, 0, 1, 1, 0]);
    assert_eq!(get_alu_op(&Instructions::AND), vec![0, 0, 1, 1, 1]);
    assert_eq!(get_alu_op(&Instructions::SRA), vec![0, 1, 1, 0, 1]);
    assert_eq!(get_alu_op(&Instructions::SLL), vec![0, 0, 0, 0, 1]);
    assert_eq!(get_alu_op(&Instructions::SRL), vec![0, 0, 1, 0, 1]);
    assert_eq!(get_alu_op(&Instructions::SLTS), vec![0, 0, 0, 1, 0]);
    assert_eq!(get_alu_op(&Instructions::SLTU), vec![0, 0, 0, 1, 1]);
    assert_eq!(get_alu_op(&Instructions::BLT), vec![1, 1, 1, 0, 0]);
    assert_eq!(get_alu_op(&Instructions::BLTU), vec![1, 1, 1, 1, 0]);
    assert_eq!(get_alu_op(&Instructions::BGE), vec![1, 1, 1, 0, 1]);
    assert_eq!(get_alu_op(&Instructions::BGEU), vec![1, 1, 1, 1, 1]);
    assert_eq!(get_alu_op(&Instructions::BEQ), vec![1, 1, 0, 0, 0]);
    assert_eq!(get_alu_op(&Instructions::BNE), vec![1, 1, 0, 0, 1]);
    assert_eq!(get_alu_op(&Instructions::J), vec![0, 0, 0, 0, 0]);
}

#[test]
fn bit_arrays_fold_into_words() {
    let mut word = vec![1u8];
    fill_binary_array(&mut word, 31);
    assert_eq!(binary_array_to_int(&word), 0x8000_0000);
    let mut low = Vec::new();
    fill_binary_array(&mut low, 31);
    low.push(1);
    assert_eq!(binary_array_to_int(&low), 1);
    let empty: Vec<u8> = Vec::new();
    assert_eq!(binary_array_to_int(&empty), 0);
}

#[test]
fn command_decoder_builds_a_record() {
    let cmd = command_decoder(String::from("bne x3 x4 target"), 7).expect("decode");
    assert_eq!(cmd.index, 7);
    assert!(cmd.has_label);
    assert_eq!(cmd.text, "bne x3 x4 target");
    assert_eq!(cmd.arguments[2].c_value, "target");
    let err = command_decoder(String::from("bne x3"), 7).unwrap_err();
    assert_eq!(err.kind, ErrKind::ArgCountMismatch);
    assert_eq!(err.index, 7);
}

#[test]
fn labels_strip_colons_and_spaces() {
    let cmds = get_decoded_lines("my loop :\nj myloop\n").expect("decode");
    // the label name is the line without colons and spaces
    assert_eq!(cmds[0].arguments[0].c_value, "0");
}

#[test]
fn empty_program_decodes_to_nothing() {
    let cmds = get_decoded_lines("").expect("decode");
    assert!(cmds.is_empty());
    let only_comments = get_decoded_lines("# nothing here\n\n# end\n").expect("decode");
    assert!(only_comments.is_empty());
    let words = encode_commands(&Vec::new()).expect("encode");
    assert!(words.is_empty());
}
