//! Decoder: parses raw assembly text into an ordered sequence of typed,
//! label-resolved instruction records.

use vstd::prelude::*;

use crate::text::{
    lower_seq, tokens_of, tokenize, eq_lower, reg_index_of, parse_reg_index, dec_string_of_int,
    i64_to_dec, lines_of, split_lines, strip_comment_spec, strip_comment, remove_commas_spec,
    remove_commas, label_name_spec, label_name_of, lemma_lines_of_len,
};

verus! {

/// The reason a source line was rejected.
#[derive(Clone, Copy, PartialEq, Eq, Structural, Debug)]
pub enum ErrKind {
    UnknownMnemonic,
    ArgCountMismatch,
    UnresolvedLabel,
    InvalidNumericOperand,
    InvalidRegisterOperand,
    UnsupportedInstruction,
}

/// A structured error naming the offending source line and its sequence
/// index.
#[derive(Debug)]
pub struct AsmError {
    pub kind: ErrKind,
    pub line: String,
    pub index: u32,
}

/// Mathematical image of an `AsmError`.
pub struct AsmErrorV {
    pub kind: ErrKind,
    pub line: Seq<char>,
    pub index: u32,
}

impl View for AsmError {
    type V = AsmErrorV;

    open spec fn view(&self) -> AsmErrorV {
        AsmErrorV { kind: self.kind, line: self.line@, index: self.index }
    }
}

impl DeepView for AsmError {
    type V = AsmErrorV;

    open spec fn deep_view(&self) -> AsmErrorV {
        self@
    }
}

/// The closed set of supported operations.
#[derive(Clone, Copy, PartialEq, Eq, Structural, Debug)]
pub enum Instructions {
    ADD,
    SUB,
    XOR,
    OR,
    AND,
    SRA,
    SLL,
    SRL,
    SLTS,
    SLTU,
    BLT,
    BLTU,
    BGE,
    BGEU,
    BEQ,
    BNE,
    LI,
    J,
    CIN,
    COUT,
}

/// The encoding category of an instruction.
#[derive(Clone, Copy, PartialEq, Eq, Structural, Debug)]
pub enum InstructionType {
    Compute,
    Branch,
    Li,
    In,
    Jump,
}

/// Classification of one operand.
#[derive(Clone, Copy, PartialEq, Eq, Structural, Debug)]
pub enum ArgType {
    Empty,
    Register,
    Constant,
    Label,
}

#[derive(Debug)]
pub struct CommandArg {
    pub c_type: ArgType,
    pub c_value: String,
}

#[derive(Debug)]
pub struct Command {
    pub text: String,
    pub instruction: Instructions,
    pub instruction_type: InstructionType,
    pub arguments: Vec<CommandArg>,
    pub index: u32,
    pub has_label: bool,
}

#[derive(Debug)]
pub struct Label {
    pub name: String,
    pub index: u32,
}

/// Mathematical image of a `CommandArg`.
pub struct ArgV {
    pub c_type: ArgType,
    pub c_value: Seq<char>,
}

/// Mathematical image of a `Command`.
pub struct CommandV {
    pub text: Seq<char>,
    pub instruction: Instructions,
    pub instruction_type: InstructionType,
    pub arguments: Seq<ArgV>,
    pub index: u32,
    pub has_label: bool,
}

/// Mathematical image of a `Label`.
pub struct LabelV {
    pub name: Seq<char>,
    pub index: u32,
}

impl View for CommandArg {
    type V = ArgV;

    open spec fn view(&self) -> ArgV {
        ArgV { c_type: self.c_type, c_value: self.c_value@ }
    }
}

impl DeepView for CommandArg {
    type V = ArgV;

    open spec fn deep_view(&self) -> ArgV {
        self@
    }
}

impl View for Command {
    type V = CommandV;

    open spec fn view(&self) -> CommandV {
        CommandV {
            text: self.text@,
            instruction: self.instruction,
            instruction_type: self.instruction_type,
            arguments: self.arguments.deep_view(),
            index: self.index,
            has_label: self.has_label,
        }
    }
}

impl DeepView for Command {
    type V = CommandV;

    open spec fn deep_view(&self) -> CommandV {
        self@
    }
}

impl View for Label {
    type V = LabelV;

    open spec fn view(&self) -> LabelV {
        LabelV { name: self.name@, index: self.index }
    }
}

impl DeepView for Label {
    type V = LabelV;

    open spec fn deep_view(&self) -> LabelV {
        self@
    }
}

/// The upper-case listing spelling of each mnemonic.
pub open spec fn display_text(m: Instructions) -> Seq<char> {
    match m {
        Instructions::ADD => "ADD"@,
        Instructions::SUB => "SUB"@,
        Instructions::XOR => "XOR"@,
        Instructions::OR => "OR"@,
        Instructions::AND => "AND"@,
        Instructions::SRA => "SRA"@,
        Instructions::SLL => "SLL"@,
        Instructions::SRL => "SRL"@,
        Instructions::SLTS => "SLTS"@,
        Instructions::SLTU => "SLTU"@,
        Instructions::BLT => "BLT"@,
        Instructions::BLTU => "BLTU"@,
        Instructions::BGE => "BGE"@,
        Instructions::BGEU => "BGEU"@,
        Instructions::BEQ => "BEQ"@,
        Instructions::BNE => "BNE"@,
        Instructions::LI => "LI"@,
        Instructions::J => "J"@,
        Instructions::CIN => "CIN"@,
        Instructions::COUT => "COUT"@,
    }
}

impl Instructions {
    /// The upper-case spelling of this mnemonic, for listings.
    pub fn text(&self) -> (r: String)
        ensures
            r@ == display_text(*self),
    {
        match self {
            Instructions::ADD => "ADD".to_owned(),
            Instructions::SUB => "SUB".to_owned(),
            Instructions::XOR => "XOR".to_owned(),
            Instructions::OR => "OR".to_owned(),
            Instructions::AND => "AND".to_owned(),
            Instructions::SRA => "SRA".to_owned(),
            Instructions::SLL => "SLL".to_owned(),
            Instructions::SRL => "SRL".to_owned(),
            Instructions::SLTS => "SLTS".to_owned(),
            Instructions::SLTU => "SLTU".to_owned(),
            Instructions::BLT => "BLT".to_owned(),
            Instructions::BLTU => "BLTU".to_owned(),
            Instructions::BGE => "BGE".to_owned(),
            Instructions::BGEU => "BGEU".to_owned(),
            Instructions::BEQ => "BEQ".to_owned(),
            Instructions::BNE => "BNE".to_owned(),
            Instructions::LI => "LI".to_owned(),
            Instructions::J => "J".to_owned(),
            Instructions::CIN => "CIN".to_owned(),
            Instructions::COUT => "COUT".to_owned(),
        }
    }
}

/// True exactly for the mnemonics whose operand signature includes a label:
/// the six conditional branches and the unconditional jump.
pub open spec fn spec_has_label(m: Instructions) -> bool {
    match m {
        Instructions::BLT
        | Instructions::BLTU
        | Instructions::BGE
        | Instructions::BGEU
        | Instructions::BEQ
        | Instructions::BNE
        | Instructions::J => true,
        _ => false,
    }
}

/// The encoding category of each mnemonic.
pub open spec fn spec_type_of(m: Instructions) -> InstructionType {
    match m {
        Instructions::ADD
        | Instructions::SUB
        | Instructions::XOR
        | Instructions::OR
        | Instructions::AND
        | Instructions::SRA
        | Instructions::SLL
        | Instructions::SRL
        | Instructions::SLTS
        | Instructions::SLTU => InstructionType::Compute,
        Instructions::BLT
        | Instructions::BLTU
        | Instructions::BGE
        | Instructions::BGEU
        | Instructions::BEQ
        | Instructions::BNE => InstructionType::Branch,
        Instructions::LI => InstructionType::Li,
        Instructions::CIN | Instructions::COUT => InstructionType::In,
        Instructions::J => InstructionType::Jump,
    }
}

/// The fixed operand-kind signature of each mnemonic, in operand order.
pub open spec fn spec_signature(m: Instructions) -> Seq<ArgType> {
    match spec_type_of(m) {
        InstructionType::Compute => seq![ArgType::Register, ArgType::Register, ArgType::Register],
        InstructionType::Branch => seq![ArgType::Register, ArgType::Register, ArgType::Label],
        InstructionType::Li => seq![ArgType::Register, ArgType::Constant],
        InstructionType::In => Seq::empty(),
        InstructionType::Jump => seq![ArgType::Label],
    }
}

/// The lower-case spelling of each mnemonic.
pub open spec fn mnemonic_text(m: Instructions) -> Seq<char> {
    match m {
        Instructions::ADD => "add"@,
        Instructions::SUB => "sub"@,
        Instructions::XOR => "xor"@,
        Instructions::OR => "or"@,
        Instructions::AND => "and"@,
        Instructions::SRA => "sra"@,
        Instructions::SLL => "sll"@,
        Instructions::SRL => "srl"@,
        Instructions::SLTS => "slts"@,
        Instructions::SLTU => "sltu"@,
        Instructions::BLT => "blt"@,
        Instructions::BLTU => "bltu"@,
        Instructions::BGE => "bge"@,
        Instructions::BGEU => "bgeu"@,
        Instructions::BEQ => "beq"@,
        Instructions::BNE => "bne"@,
        Instructions::LI => "li"@,
        Instructions::J => "j"@,
        Instructions::CIN => "cin"@,
        Instructions::COUT => "cout"@,
    }
}

/// Looks an already lower-cased token up in the closed mnemonic set.
pub open spec fn lookup_mnemonic(l: Seq<char>) -> Option<Instructions> {
    if l == "add"@ {
        Some(Instructions::ADD)
    } else if l == "sub"@ {
        Some(Instructions::SUB)
    } else if l == "xor"@ {
        Some(Instructions::XOR)
    } else if l == "or"@ {
        Some(Instructions::OR)
    } else if l == "and"@ {
        Some(Instructions::AND)
    } else if l == "sra"@ {
        Some(Instructions::SRA)
    } else if l == "sll"@ {
        Some(Instructions::SLL)
    } else if l == "srl"@ {
        Some(Instructions::SRL)
    } else if l == "slts"@ {
        Some(Instructions::SLTS)
    } else if l == "sltu"@ {
        Some(Instructions::SLTU)
    } else if l == "blt"@ {
        Some(Instructions::BLT)
    } else if l == "bltu"@ {
        Some(Instructions::BLTU)
    } else if l == "bge"@ {
        Some(Instructions::BGE)
    } else if l == "bgeu"@ {
        Some(Instructions::BGEU)
    } else if l == "beq"@ {
        Some(Instructions::BEQ)
    } else if l == "bne"@ {
        Some(Instructions::BNE)
    } else if l == "li"@ {
        Some(Instructions::LI)
    } else if l == "j"@ {
        Some(Instructions::J)
    } else if l == "cin"@ {
        Some(Instructions::CIN)
    } else if l == "cout"@ {
        Some(Instructions::COUT)
    } else {
        None
    }
}

/// The mnemonic named by a raw token, matched case-insensitively.
pub open spec fn mnemonic_of(t: Seq<char>) -> Option<Instructions> {
    lookup_mnemonic(lower_seq(t))
}

/// The mnemonic of an instruction line: that of its first token.
pub open spec fn spec_instruction_of_line(l: Seq<char>) -> Option<Instructions> {
    if tokens_of(l).len() == 0 {
        None
    } else {
        mnemonic_of(tokens_of(l)[0])
    }
}

fn instruction_of_token(t: &str) -> (r: Option<Instructions>)
    ensures
        r == mnemonic_of(t@),
{
    if eq_lower(t, "add") {
        Some(Instructions::ADD)
    } else if eq_lower(t, "sub") {
        Some(Instructions::SUB)
    } else if eq_lower(t, "xor") {
        Some(Instructions::XOR)
    } else if eq_lower(t, "or") {
        Some(Instructions::OR)
    } else if eq_lower(t, "and") {
        Some(Instructions::AND)
    } else if eq_lower(t, "sra") {
        Some(Instructions::SRA)
    } else if eq_lower(t, "sll") {
        Some(Instructions::SLL)
    } else if eq_lower(t, "srl") {
        Some(Instructions::SRL)
    } else if eq_lower(t, "slts") {
        Some(Instructions::SLTS)
    } else if eq_lower(t, "sltu") {
        Some(Instructions::SLTU)
    } else if eq_lower(t, "blt") {
        Some(Instructions::BLT)
    } else if eq_lower(t, "bltu") {
        Some(Instructions::BLTU)
    } else if eq_lower(t, "bge") {
        Some(Instructions::BGE)
    } else if eq_lower(t, "bgeu") {
        Some(Instructions::BGEU)
    } else if eq_lower(t, "beq") {
        Some(Instructions::BEQ)
    } else if eq_lower(t, "bne") {
        Some(Instructions::BNE)
    } else if eq_lower(t, "li") {
        Some(Instructions::LI)
    } else if eq_lower(t, "j") {
        Some(Instructions::J)
    } else if eq_lower(t, "cin") {
        Some(Instructions::CIN)
    } else if eq_lower(t, "cout") {
        Some(Instructions::COUT)
    } else {
        None
    }
}

/// Reads the mnemonic of an instruction line, or nothing when the line has
/// no token or an unknown first token.
pub fn get_command_instruction(command_line: &String) -> (r: Option<Instructions>)
    ensures
        r == spec_instruction_of_line(command_line@),
{
    let toks = tokenize(command_line.as_str());
    if toks.len() == 0 {
        None
    } else {
        let t: &String = &toks[0];
        proof {
            assert(t@ == tokens_of(command_line@)[0]);
        }
        instruction_of_token(t.as_str())
    }
}

/// Whether this mnemonic's operand signature includes a label.
pub fn check_command_has_label(instruction: &Instructions) -> (r: bool)
    ensures
        r == spec_has_label(*instruction),
{
    match instruction {
        Instructions::BLT => true,
        Instructions::BLTU => true,
        Instructions::BGE => true,
        Instructions::BGEU => true,
        Instructions::BEQ => true,
        Instructions::BNE => true,
        Instructions::J => true,
        _ => false,
    }
}

/// The encoding category of a mnemonic.
pub fn instruction_type_of(instruction: &Instructions) -> (r: InstructionType)
    ensures
        r == spec_type_of(*instruction),
{
    match instruction {
        Instructions::ADD => InstructionType::Compute,
        Instructions::SUB => InstructionType::Compute,
        Instructions::XOR => InstructionType::Compute,
        Instructions::OR => InstructionType::Compute,
        Instructions::AND => InstructionType::Compute,
        Instructions::SRA => InstructionType::Compute,
        Instructions::SLL => InstructionType::Compute,
        Instructions::SRL => InstructionType::Compute,
        Instructions::SLTS => InstructionType::Compute,
        Instructions::SLTU => InstructionType::Compute,
        Instructions::BLT => InstructionType::Branch,
        Instructions::BLTU => InstructionType::Branch,
        Instructions::BGE => InstructionType::Branch,
        Instructions::BGEU => InstructionType::Branch,
        Instructions::BEQ => InstructionType::Branch,
        Instructions::BNE => InstructionType::Branch,
        Instructions::LI => InstructionType::Li,
        Instructions::CIN => InstructionType::In,
        Instructions::COUT => InstructionType::In,
        Instructions::J => InstructionType::Jump,
    }
}

/// The fixed operand-kind signature of a mnemonic.
pub fn signature_of(instruction: &Instructions) -> (r: Vec<ArgType>)
    ensures
        r@ == spec_signature(*instruction),
{
    let mut r: Vec<ArgType> = Vec::new();
    match instruction_type_of(instruction) {
        InstructionType::Compute => {
            r.push(ArgType::Register);
            r.push(ArgType::Register);
            r.push(ArgType::Register);
        },
        InstructionType::Branch => {
            r.push(ArgType::Register);
            r.push(ArgType::Register);
            r.push(ArgType::Label);
        },
        InstructionType::Li => {
            r.push(ArgType::Register);
            r.push(ArgType::Constant);
        },
        InstructionType::In => {},
        InstructionType::Jump => {
            r.push(ArgType::Label);
        },
    }
    proof {
        assert(r@ =~= spec_signature(*instruction));
    }
    r
}

/// The operands an instruction line carries, classified by the mnemonic's
/// fixed signature; nothing when the token count does not match its arity.
pub open spec fn spec_get_arguments(m: Instructions, l: Seq<char>) -> Option<Seq<ArgV>> {
    let ts = tokens_of(l);
    let sig = spec_signature(m);
    if ts.len() == sig.len() + 1 {
        Some(Seq::new(sig.len(), |j: int| ArgV { c_type: sig[j], c_value: ts[j + 1] }))
    } else {
        None
    }
}

/// Materializes the operand list of an instruction line, or nothing when
/// the operand count does not match the mnemonic's arity.
pub fn get_arguments(instruction: &Instructions, command_line: &String) -> (r: Option<
    Vec<CommandArg>,
>)
    ensures
        match r {
            Some(args) => spec_get_arguments(*instruction, command_line@) == Some(
                args.deep_view(),
            ),
            None => spec_get_arguments(*instruction, command_line@) is None,
        },
{
    let toks = tokenize(command_line.as_str());
    let sig = signature_of(instruction);
    if toks.len() != sig.len() + 1 {
        return None;
    }
    let mut args: Vec<CommandArg> = Vec::new();
    let mut j: usize = 0;
    while j < sig.len()
        invariant
            0 <= j <= sig.len(),
            toks.len() == sig.len() + 1,
            sig@ == spec_signature(*instruction),
            toks.deep_view() == tokens_of(command_line@),
            args@.len() == j as int,
            forall|k: int|
                0 <= k < j ==> (#[trigger] args@[k])@ == (ArgV {
                    c_type: sig@[k],
                    c_value: toks.deep_view()[k + 1],
                }),
        decreases sig.len() - j,
    {
        let value: String = toks[j + 1].clone();
        proof {
            assert(toks.deep_view()[j as int + 1] == toks@[j as int + 1]@);
        }
        args.push(CommandArg { c_type: sig[j], c_value: value });
        j += 1;
    }
    proof {
        assert(args.deep_view() =~= spec_get_arguments(*instruction, command_line@).unwrap());
    }
    Some(args)
}

/// One fully classified instruction record for one source line, or the
/// structured error that line deserves.
pub open spec fn spec_command_decoder(l: Seq<char>, idx: u32) -> Result<CommandV, AsmErrorV> {
    match spec_instruction_of_line(l) {
        None => Err(AsmErrorV { kind: ErrKind::UnknownMnemonic, line: l, index: idx }),
        Some(m) => match spec_get_arguments(m, l) {
            None => Err(AsmErrorV { kind: ErrKind::ArgCountMismatch, line: l, index: idx }),
            Some(args) => Ok(
                CommandV {
                    text: l,
                    instruction: m,
                    instruction_type: spec_type_of(m),
                    arguments: args,
                    index: idx,
                    has_label: spec_has_label(m),
                },
            ),
        },
    }
}

/// Index of the last operand classified as a label, if any; a decoded
/// branch or jump has exactly one.
pub open spec fn last_label_arg(args: Seq<ArgV>) -> Option<int>
    decreases args.len(),
{
    if args.len() == 0 {
        None
    } else if args.last().c_type == ArgType::Label {
        Some(args.len() - 1)
    } else {
        last_label_arg(args.drop_last())
    }
}

/// First label entry with the given name, if any.
pub open spec fn lookup_label(ls: Seq<LabelV>, name: Seq<char>) -> Option<u32>
    decreases ls.len(),
{
    if ls.len() == 0 {
        None
    } else if ls[0].name == name {
        Some(ls[0].index)
    } else {
        lookup_label(ls.drop_first(), name)
    }
}

/// Label resolution for one record: the label operand's text becomes the
/// signed decimal displacement `label index - instruction index`; a record
/// that references no known label is an error.
pub open spec fn spec_fill_labels(c: CommandV, ls: Seq<LabelV>) -> Result<CommandV, AsmErrorV> {
    if !c.has_label {
        Ok(c)
    } else {
        match last_label_arg(c.arguments) {
            None => Err(AsmErrorV { kind: ErrKind::UnresolvedLabel, line: c.text, index: c.index }),
            Some(j) => match lookup_label(ls, c.arguments[j].c_value) {
                None => Err(
                    AsmErrorV { kind: ErrKind::UnresolvedLabel, line: c.text, index: c.index },
                ),
                Some(li) => Ok(
                    CommandV {
                        arguments: c.arguments.update(
                            j,
                            ArgV {
                                c_type: c.arguments[j].c_type,
                                c_value: dec_string_of_int(li as int - c.index as int),
                            },
                        ),
                        ..c
                    },
                ),
            },
        }
    }
}

/// Resolves the label operand of a branch or jump record against the label
/// table, back-filling the signed decimal displacement.
pub fn fill_labels(command: &mut Command, labels: &[Label]) -> (r: Result<(), AsmError>)
    ensures
        match r {
            Ok(_) => spec_fill_labels(old(command)@, labels.deep_view()) == Ok::<
                CommandV,
                AsmErrorV,
            >(final(command)@),
            Err(e) => spec_fill_labels(old(command)@, labels.deep_view()) == Err::<
                CommandV,
                AsmErrorV,
            >(e@) && final(command)@ == old(command)@,
        },
{
    if !command.has_label {
        return Ok(());
    }
    let n = command.arguments.len();
    let mut label_arg_index: usize = 0;
    let mut found = false;
    let mut i: usize = 0;
    while i < n
        invariant
            0 <= i <= n,
            *command == *old(command),
            n == command.arguments@.len(),
            found ==> label_arg_index < i,
            last_label_arg(command@.arguments.take(i as int)) == if found {
                Some(label_arg_index as int)
            } else {
                None::<int>
            },
        decreases n - i,
    {
        let ghost pre = command@.arguments.take(i as int);
        let ghost cur = command@.arguments.take(i as int + 1);
        proof {
            assert(cur.drop_last() =~= pre);
            assert(cur.last() == command@.arguments[i as int]);
        }
        if matches!(command.arguments[i].c_type, ArgType::Label) {
            found = true;
            label_arg_index = i;
        }
        i += 1;
    }
    proof {
        assert(command@.arguments.take(n as int) =~= command@.arguments);
    }
    if !found {
        return Err(
            AsmError {
                kind: ErrKind::UnresolvedLabel,
                line: command.text.clone(),
                index: command.index,
            },
        );
    }
    let m = labels.len();
    let mut k: usize = 0;
    let ghost lsv = labels.deep_view();
    let ghost name = command@.arguments[label_arg_index as int].c_value;
    proof {
        assert(lsv.skip(0) =~= lsv);
    }
    while k < m
        invariant
            0 <= k <= m,
            *command == *old(command),
            old(command)@.has_label,
            label_arg_index < command.arguments@.len(),
            last_label_arg(command@.arguments) == Some(label_arg_index as int),
            m == labels@.len(),
            lsv == labels.deep_view(),
            name == command@.arguments[label_arg_index as int].c_value,
            lookup_label(lsv, name) == lookup_label(lsv.skip(k as int), name),
        decreases m - k,
    {
        let ghost suf = lsv.skip(k as int);
        proof {
            assert(suf.drop_first() =~= lsv.skip(k as int + 1));
            assert(suf[0] == lsv[k as int]);
            assert(lsv[k as int] == labels@[k as int]@);
        }
        if labels[k].name.eq(&command.arguments[label_arg_index].c_value) {
            let label_index = labels[k].index;
            let command_index = command.index;
            let offset: i64 = label_index as i64 - command_index as i64;
            let rendered = i64_to_dec(offset);
            command.arguments[label_arg_index].c_value = rendered;
            proof {
                let j = label_arg_index as int;
                assert(lookup_label(suf, name) == Some(label_index));
                assert(lookup_label(lsv, name) == Some(label_index));
                let newv = ArgV {
                    c_type: old(command)@.arguments[j].c_type,
                    c_value: dec_string_of_int(label_index as int - old(command)@.index as int),
                };
                assert(command@.arguments[j] == newv);
                assert(command@.arguments =~= old(command)@.arguments.update(j, newv));
                assert(spec_fill_labels(old(command)@, labels.deep_view()) == Ok::<
                    CommandV,
                    AsmErrorV,
                >(
                    CommandV {
                        arguments: old(command)@.arguments.update(j, newv),
                        ..old(command)@
                    },
                ));
            }
            return Ok(());
        }
        k += 1;
    }
    proof {
        assert(lsv.skip(m as int) =~= Seq::<LabelV>::empty());
    }
    Err(
        AsmError {
            kind: ErrKind::UnresolvedLabel,
            line: command.text.clone(),
            index: command.index,
        },
    )
}

/// A register operand that fails to normalize anywhere in the list makes
/// the whole list fail, wherever it stands.
proof fn lemma_replace_args_none(args: Seq<ArgV>, k: int)
    requires
        0 <= k <= args.len(),
        replace_args(args.take(k)) is None,
    ensures
        replace_args(args) is None,
    decreases args.len() - k,
{
    if k < args.len() {
        assert(args.take(k + 1).drop_last() =~= args.take(k));
        lemma_replace_args_none(args, k + 1);
    } else {
        assert(args.take(k) =~= args);
    }
}

/// Normalization of one register operand: the leading register prefix is
/// stripped and the remaining text must read as an index in [0, 31].
pub open spec fn reg_norm(s: Seq<char>) -> Option<Seq<char>> {
    if s.len() >= 1 && s[0] == 'x' && reg_index_of(s.drop_first()) is Some {
        Some(s.drop_first())
    } else {
        None
    }
}

/// Register normalization over a whole operand list; any register operand
/// that does not normalize poisons the list.
pub open spec fn replace_args(args: Seq<ArgV>) -> Option<Seq<ArgV>>
    decreases args.len(),
{
    if args.len() == 0 {
        Some(Seq::empty())
    } else {
        let a = args.last();
        match replace_args(args.drop_last()) {
            None => None,
            Some(rest) => if a.c_type == ArgType::Register {
                match reg_norm(a.c_value) {
                    None => None,
                    Some(v) => Some(rest + seq![ArgV { c_type: a.c_type, c_value: v }]),
                }
            } else {
                Some(rest + seq![a])
            },
        }
    }
}

/// Register normalization for one record.
pub open spec fn spec_replace_registers(c: CommandV) -> Result<CommandV, AsmErrorV> {
    match replace_args(c.arguments) {
        Some(args) => Ok(CommandV { arguments: args, ..c }),
        None => Err(
            AsmErrorV { kind: ErrKind::InvalidRegisterOperand, line: c.text, index: c.index },
        ),
    }
}

/// Normalizes every register operand of a record to its plain numeric
/// index text, rejecting any that is not `x` followed by an index in
/// [0, 31].
pub fn replace_registers(command: &mut Command) -> (r: Result<(), AsmError>)
    ensures
        match r {
            Ok(_) => spec_replace_registers(old(command)@) == Ok::<CommandV, AsmErrorV>(
                final(command)@,
            ),
            Err(e) => spec_replace_registers(old(command)@) == Err::<CommandV, AsmErrorV>(e@)
                && final(command)@ == old(command)@,
        },
{
    let n = command.arguments.len();
    let mut newargs: Vec<CommandArg> = Vec::new();
    proof {
        assert(command@.arguments.take(0) =~= Seq::<ArgV>::empty());
        assert(newargs.deep_view() =~= Seq::<ArgV>::empty());
    }
    let mut i: usize = 0;
    while i < n
        invariant
            0 <= i <= n,
            *command == *old(command),
            n == command.arguments@.len(),
            replace_args(command@.arguments.take(i as int)) == Some(newargs.deep_view()),
        decreases n - i,
    {
        let ghost pre = command@.arguments.take(i as int);
        let ghost cur = command@.arguments.take(i as int + 1);
        proof {
            assert(cur.drop_last() =~= pre);
            assert(cur.last() == command@.arguments[i as int]);
        }
        let c_type = command.arguments[i].c_type;
        let value: String = command.arguments[i].c_value.clone();
        proof {
            assert(value@ == command@.arguments[i as int].c_value);
        }
        if matches!(c_type, ArgType::Register) {
            let vlen = value.as_str().unicode_len();
            if vlen == 0 || value.as_str().get_char(0) != 'x' {
                proof {
                    assert(replace_args(cur) is None);
                    lemma_replace_args_none(command@.arguments, i as int + 1);
                }
                return Err(
                    AsmError {
                        kind: ErrKind::InvalidRegisterOperand,
                        line: command.text.clone(),
                        index: command.index,
                    },
                );
            }
            let suffix = value.as_str().substring_char(1, vlen);
            proof {
                assert(suffix@ == value@.drop_first());
            }
            match parse_reg_index(suffix) {
                None => {
                    proof {
                        assert(replace_args(cur) is None);
                        lemma_replace_args_none(command@.arguments, i as int + 1);
                    }
                    return Err(
                        AsmError {
                            kind: ErrKind::InvalidRegisterOperand,
                            line: command.text.clone(),
                            index: command.index,
                        },
                    );
                },
                Some(_) => {
                    newargs.push(CommandArg { c_type, c_value: suffix.to_owned() });
                },
            }
        } else {
            newargs.push(CommandArg { c_type, c_value: value });
        }
        i += 1;
        proof {
            assert(newargs.deep_view() =~= replace_args(
                command@.arguments.take(i as int),
            ).unwrap());
        }
    }
    proof {
        assert(command@.arguments.take(n as int) =~= command@.arguments);
    }
    command.arguments = newargs;
    proof {
        assert(final(command)@ =~= spec_replace_registers(old(command)@)->Ok_0);
    }
    Ok(())
}

/// Decodes one instruction line into its record: mnemonic, category,
/// classified operands, sequence index and label flag.
pub fn command_decoder(command_line: String, line_index: u32) -> (r: Result<Command, AsmError>)
    ensures
        match r {
            Ok(c) => spec_command_decoder(command_line@, line_index) == Ok::<CommandV, AsmErrorV>(
                c@,
            ),
            Err(e) => spec_command_decoder(command_line@, line_index) == Err::<
                CommandV,
                AsmErrorV,
            >(e@),
        },
{
    let instruction = match get_command_instruction(&command_line) {
        Some(m) => m,
        None => {
            return Err(
                AsmError { kind: ErrKind::UnknownMnemonic, line: command_line, index: line_index },
            );
        },
    };
    let has_label = check_command_has_label(&instruction);
    let instruction_type = instruction_type_of(&instruction);
    let arguments = match get_arguments(&instruction, &command_line) {
        Some(args) => args,
        None => {
            return Err(
                AsmError { kind: ErrKind::ArgCountMismatch, line: command_line, index: line_index },
            );
        },
    };
    Ok(
        Command {
            text: command_line,
            instruction,
            instruction_type,
            arguments,
            index: line_index,
            has_label,
        },
    )
}

/// First pass over the remaining lines, with `cnt` instructions already
/// seen: comment stripping, blank-line skipping, label recording and
/// per-instruction decoding, in source order.
pub open spec fn spec_pass1(lines: Seq<Seq<char>>, cnt: u32) -> Result<
    (Seq<CommandV>, Seq<LabelV>),
    AsmErrorV,
>
    decreases lines.len(),
{
    if lines.len() == 0 {
        Ok((Seq::empty(), Seq::empty()))
    } else {
        let st = strip_comment_spec(lines[0]);
        if st.len() == 0 {
            spec_pass1(lines.drop_first(), cnt)
        } else if st.last() == ':' {
            match spec_pass1(lines.drop_first(), cnt) {
                Ok(r) => Ok((r.0, seq![LabelV { name: label_name_spec(st), index: cnt }] + r.1)),
                Err(e) => Err(e),
            }
        } else {
            let cl = remove_commas_spec(st);
            if tokens_of(cl).len() == 0 {
                spec_pass1(lines.drop_first(), cnt)
            } else {
                match spec_command_decoder(cl, cnt) {
                    Err(e) => Err(e),
                    Ok(c) => match spec_pass1(lines.drop_first(), (cnt + 1) as u32) {
                        Ok(r) => Ok((seq![c] + r.0, r.1)),
                        Err(e) => Err(e),
                    },
                }
            }
        }
    }
}

/// Second pass: label resolution then register normalization, record by
/// record, stopping at the first error.
pub open spec fn spec_pass2(cs: Seq<CommandV>, ls: Seq<LabelV>) -> Result<Seq<CommandV>, AsmErrorV>
    decreases cs.len(),
{
    if cs.len() == 0 {
        Ok(Seq::empty())
    } else {
        match spec_fill_labels(cs[0], ls) {
            Err(e) => Err(e),
            Ok(c1) => match spec_replace_registers(c1) {
                Err(e) => Err(e),
                Ok(c2) => match spec_pass2(cs.drop_first(), ls) {
                    Ok(rest) => Ok(seq![c2] + rest),
                    Err(e) => Err(e),
                },
            },
        }
    }
}

/// The whole decode pipeline on a text buffer: both passes composed.
pub open spec fn spec_decode(data: Seq<char>) -> Result<Seq<CommandV>, AsmErrorV> {
    match spec_pass1(lines_of(data), 0) {
        Err(e) => Err(e),
        Ok(r) => spec_pass2(r.0, r.1),
    }
}

/// Prepends already-gathered records and labels to a first-pass result.
pub open spec fn pass1_combine(
    r: Result<(Seq<CommandV>, Seq<LabelV>), AsmErrorV>,
    cs: Seq<CommandV>,
    ls: Seq<LabelV>,
) -> Result<(Seq<CommandV>, Seq<LabelV>), AsmErrorV> {
    match r {
        Ok(p) => Ok((cs + p.0, ls + p.1)),
        Err(e) => Err(e),
    }
}

/// Prepends already-processed records to a second-pass result.
pub open spec fn pass2_combine(r: Result<Seq<CommandV>, AsmErrorV>, cs: Seq<CommandV>) -> Result<
    Seq<CommandV>,
    AsmErrorV,
> {
    match r {
        Ok(rest) => Ok(cs + rest),
        Err(e) => Err(e),
    }
}

/// Decodes a whole text buffer into the ordered, label-resolved,
/// register-normalized instruction records, or the first structured error.
pub fn get_decoded_lines(data: &str) -> (r: Result<Vec<Command>, AsmError>)
    requires
        data@.len() < 0xFFFF_FFFF,
    ensures
        match r {
            Ok(cmds) => spec_decode(data@) == Ok::<Seq<CommandV>, AsmErrorV>(cmds.deep_view()),
            Err(e) => spec_decode(data@) == Err::<Seq<CommandV>, AsmErrorV>(e@),
        },
{
    let lines = split_lines(data);
    let ghost lns = lines_of(data@);
    proof {
        lemma_lines_of_len(data@);
    }
    let nl = lines.len();
    let mut labels: Vec<Label> = Vec::new();
    let mut commands: Vec<Command> = Vec::new();
    let mut cnt: u32 = 0;
    let mut i: usize = 0;
    proof {
        assert(lns.skip(0) =~= lns);
        assert(commands.deep_view() =~= Seq::<CommandV>::empty());
        assert(labels.deep_view() =~= Seq::<LabelV>::empty());
        let r0 = spec_pass1(lns, 0);
        if r0 is Ok {
            assert(Seq::<CommandV>::empty() + r0->Ok_0.0 =~= r0->Ok_0.0);
            assert(Seq::<LabelV>::empty() + r0->Ok_0.1 =~= r0->Ok_0.1);
        }
    }
    while i < nl
        invariant
            0 <= i <= nl,
            nl == lns.len(),
            nl < 0xFFFF_FFFF,
            cnt as int <= i,
            lns == lines_of(data@),
            lines.deep_view() == lns,
            spec_pass1(lns, 0) == pass1_combine(
                spec_pass1(lns.skip(i as int), cnt),
                commands.deep_view(),
                labels.deep_view(),
            ),
        decreases nl - i,
    {
        let ghost suf = lns.skip(i as int);
        let ghost suf1 = lns.skip(i as int + 1);
        let ghost old_cmds = commands.deep_view();
        let ghost old_labels = labels.deep_view();
        proof {
            assert(suf[0] == lns[i as int]);
            assert(suf.drop_first() =~= suf1);
        }
        let line: &String = &lines[i];
        proof {
            assert(line@ == lns[i as int]);
        }
        let stripped = strip_comment(line.as_str());
        let slen = stripped.as_str().unicode_len();
        if slen == 0 {
        } else if stripped.as_str().get_char(slen - 1) == ':' {
            let name = label_name_of(stripped.as_str());
            labels.push(Label { name, index: cnt });
            proof {
                let lbl = LabelV { name: label_name_spec(stripped@), index: cnt };
                assert(labels.deep_view() =~= old_labels.push(lbl));
                let rr = spec_pass1(suf1, cnt);
                if rr is Ok {
                    assert(old_labels + (seq![lbl] + rr->Ok_0.1) =~= old_labels.push(lbl)
                        + rr->Ok_0.1);
                }
            }
        } else {
            let cl = remove_commas(stripped.as_str());
            let toks = tokenize(cl.as_str());
            if toks.len() == 0 {
            } else {
                match command_decoder(cl, cnt) {
                    Ok(c) => {
                        commands.push(c);
                        proof {
                            let cv = c@;
                            assert(commands.deep_view() =~= old_cmds.push(cv));
                            let rr = spec_pass1(suf1, (cnt + 1) as u32);
                            if rr is Ok {
                                assert(old_cmds + (seq![cv] + rr->Ok_0.0) =~= old_cmds.push(cv)
                                    + rr->Ok_0.0);
                            }
                        }
                        cnt = cnt + 1;
                    },
                    Err(e) => {
                        proof {
                            assert(spec_pass1(suf, cnt) == Err::<
                                (Seq<CommandV>, Seq<LabelV>),
                                AsmErrorV,
                            >(e@));
                        }
                        return Err(e);
                    },
                }
            }
        }
        i += 1;
    }
    proof {
        assert(lns.skip(nl as int) =~= Seq::<Seq<char>>::empty());
        let rr = spec_pass1(lns, 0);
        assert(spec_pass1(lns.skip(nl as int), cnt) == Ok::<(Seq<CommandV>, Seq<LabelV>), AsmErrorV>(
            (Seq::empty(), Seq::empty()),
        ));
        assert(commands.deep_view() + Seq::<CommandV>::empty() =~= commands.deep_view());
        assert(labels.deep_view() + Seq::<LabelV>::empty() =~= labels.deep_view());
        assert(rr == Ok::<(Seq<CommandV>, Seq<LabelV>), AsmErrorV>(
            (commands.deep_view(), labels.deep_view()),
        ));
    }
    let ghost all_cmds = commands.deep_view();
    let ghost lsv = labels.deep_view();
    let mut out: Vec<Command> = Vec::new();
    proof {
        assert(out.deep_view() =~= Seq::<CommandV>::empty());
        let r0 = spec_pass2(all_cmds, lsv);
        if r0 is Ok {
            assert(Seq::<CommandV>::empty() + r0->Ok_0 =~= r0->Ok_0);
        }
    }
    while commands.len() > 0
        invariant
            labels.deep_view() == lsv,
            spec_pass1(lines_of(data@), 0) == Ok::<(Seq<CommandV>, Seq<LabelV>), AsmErrorV>(
                (all_cmds, lsv),
            ),
            spec_pass2(all_cmds, lsv) == pass2_combine(
                spec_pass2(commands.deep_view(), lsv),
                out.deep_view(),
            ),
        decreases commands.len(),
    {
        let ghost suf = commands.deep_view();
        let ghost old_out = out.deep_view();
        let mut c = commands.remove(0);
        proof {
            assert(commands.deep_view() =~= suf.drop_first());
            assert(c@ == suf[0]);
        }
        let ls_slice: &[Label] = labels.as_slice();
        proof {
            assert(ls_slice.deep_view() =~= lsv);
        }
        match fill_labels(&mut c, ls_slice) {
            Ok(_) => {},
            Err(e) => {
                proof {
                    assert(spec_pass2(suf, lsv) == Err::<Seq<CommandV>, AsmErrorV>(e@));
                }
                return Err(e);
            },
        }
        match replace_registers(&mut c) {
            Ok(_) => {},
            Err(e) => {
                proof {
                    assert(spec_pass2(suf, lsv) == Err::<Seq<CommandV>, AsmErrorV>(e@));
                }
                return Err(e);
            },
        }
        let ghost c2v = c@;
        out.push(c);
        proof {
            assert(out.deep_view() =~= old_out.push(c2v));
            let rr = spec_pass2(suf.drop_first(), lsv);
            if rr is Ok {
                assert(old_out + (seq![c2v] + rr->Ok_0) =~= old_out.push(c2v) + rr->Ok_0);
            }
        }
    }
    proof {
        assert(commands.deep_view() =~= Seq::<CommandV>::empty());
        assert(out.deep_view() + Seq::<CommandV>::empty() =~= out.deep_view());
    }
    Ok(out)
}

/// Decoding classifies exactly by the fixed per-mnemonic table: a decoded
/// record's category, label flag, operand kinds and operand texts are the
/// table row of its mnemonic applied to the line's tokens.
pub proof fn lemma_decode_classification(l: Seq<char>, idx: u32)
    requires
        spec_command_decoder(l, idx) is Ok,
    ensures
        ({
            let c = spec_command_decoder(l, idx)->Ok_0;
            &&& spec_instruction_of_line(l) == Some(c.instruction)
            &&& c.instruction_type == spec_type_of(c.instruction)
            &&& c.has_label == spec_has_label(c.instruction)
            &&& c.arguments.len() == spec_signature(c.instruction).len()
            &&& tokens_of(l).len() == spec_signature(c.instruction).len() + 1
            &&& forall|j: int|
                0 <= j < c.arguments.len() ==> c.arguments[j].c_type == spec_signature(
                    c.instruction,
                )[j]
            &&& forall|j: int|
                0 <= j < c.arguments.len() ==> c.arguments[j].c_value == tokens_of(l)[j + 1]
            &&& c.index == idx
            &&& c.text == l
        }),
{
}

/// Re-reading a mnemonic's own spelling yields that mnemonic again: the
/// mnemonic table round-trips through its textual form.
pub proof fn lemma_mnemonic_round_trip(m: Instructions)
    ensures
        mnemonic_of(mnemonic_text(m)) == Some(m),
{
    reveal_strlit("add");
    reveal_strlit("sub");
    reveal_strlit("xor");
    reveal_strlit("or");
    reveal_strlit("and");
    reveal_strlit("sra");
    reveal_strlit("sll");
    reveal_strlit("srl");
    reveal_strlit("slts");
    reveal_strlit("sltu");
    reveal_strlit("blt");
    reveal_strlit("bltu");
    reveal_strlit("bge");
    reveal_strlit("bgeu");
    reveal_strlit("beq");
    reveal_strlit("bne");
    reveal_strlit("li");
    reveal_strlit("j");
    reveal_strlit("cin");
    reveal_strlit("cout");
    assert(lower_seq(mnemonic_text(m)) =~= mnemonic_text(m)) by {
        match m {
            Instructions::ADD => assert(lower_seq("add"@) =~= "add"@),
            Instructions::SUB => assert(lower_seq("sub"@) =~= "sub"@),
            Instructions::XOR => assert(lower_seq("xor"@) =~= "xor"@),
            Instructions::OR => assert(lower_seq("or"@) =~= "or"@),
            Instructions::AND => assert(lower_seq("and"@) =~= "and"@),
            Instructions::SRA => assert(lower_seq("sra"@) =~= "sra"@),
            Instructions::SLL => assert(lower_seq("sll"@) =~= "sll"@),
            Instructions::SRL => assert(lower_seq("srl"@) =~= "srl"@),
            Instructions::SLTS => assert(lower_seq("slts"@) =~= "slts"@),
            Instructions::SLTU => assert(lower_seq("sltu"@) =~= "sltu"@),
            Instructions::BLT => assert(lower_seq("blt"@) =~= "blt"@),
            Instructions::BLTU => assert(lower_seq("bltu"@) =~= "bltu"@),
            Instructions::BGE => assert(lower_seq("bge"@) =~= "bge"@),
            Instructions::BGEU => assert(lower_seq("bgeu"@) =~= "bgeu"@),
            Instructions::BEQ => assert(lower_seq("beq"@) =~= "beq"@),
            Instructions::BNE => assert(lower_seq("bne"@) =~= "bne"@),
            Instructions::LI => assert(lower_seq("li"@) =~= "li"@),
            Instructions::J => assert(lower_seq("j"@) =~= "j"@),
            Instructions::CIN => assert(lower_seq("cin"@) =~= "cin"@),
            Instructions::COUT => assert(lower_seq("cout"@) =~= "cout"@),
        }
    }
    match m {
        Instructions::ADD => {

            assert(lookup_mnemonic("add"@) == Some(Instructions::ADD));
        },
        Instructions::SUB => {
            assert(("sub"@)[0] != ("add"@)[0]);
            assert(lookup_mnemonic("sub"@) == Some(Instructions::SUB));
        },
        Instructions::XOR => {
            assert(("xor"@)[0] != ("add"@)[0]);
            assert(("xor"@)[0] != ("sub"@)[0]);
            assert(lookup_mnemonic("xor"@) == Some(Instructions::XOR));
        },
        Instructions::OR => {

            assert(lookup_mnemonic("or"@) == Some(Instructions::OR));
        },
        Instructions::AND => {
            assert(("and"@)[1] != ("add"@)[1]);
            assert(("and"@)[0] != ("sub"@)[0]);
            assert(("and"@)[0] != ("xor"@)[0]);
            assert(lookup_mnemonic("and"@) == Some(Instructions::AND));
        },
        Instructions::SRA => {
            assert(("sra"@)[0] != ("add"@)[0]);
            assert(("sra"@)[1] != ("sub"@)[1]);
            assert(("sra"@)[0] != ("xor"@)[0]);
            assert(("sra"@)[0] != ("and"@)[0]);
            assert(lookup_mnemonic("sra"@) == Some(Instructions::SRA));
        },
        Instructions::SLL => {
            assert(("sll"@)[0] != ("add"@)[0]);
            assert(("sll"@)[1] != ("sub"@)[1]);
            assert(("sll"@)[0] != ("xor"@)[0]);
            assert(("sll"@)[0] != ("and"@)[0]);
            assert(("sll"@)[1] != ("sra"@)[1]);
            assert(lookup_mnemonic("sll"@) == Some(Instructions::SLL));
        },
        Instructions::SRL => {
            assert(("srl"@)[0] != ("add"@)[0]);
            assert(("srl"@)[1] != ("sub"@)[1]);
            assert(("srl"@)[0] != ("xor"@)[0]);
            assert(("srl"@)[0] != ("and"@)[0]);
            assert(("srl"@)[2] != ("sra"@)[2]);
            assert(("srl"@)[1] != ("sll"@)[1]);
            assert(lookup_mnemonic("srl"@) == Some(Instructions::SRL));
        },
        Instructions::SLTS => {

            assert(lookup_mnemonic("slts"@) == Some(Instructions::SLTS));
        },
        Instructions::SLTU => {
            assert(("sltu"@)[3] != ("slts"@)[3]);
            assert(lookup_mnemonic("sltu"@) == Some(Instructions::SLTU));
        },
        Instructions::BLT => {
            assert(("blt"@)[0] != ("add"@)[0]);
            assert(("blt"@)[0] != ("sub"@)[0]);
            assert(("blt"@)[0] != ("xor"@)[0]);
            assert(("blt"@)[0] != ("and"@)[0]);
            assert(("blt"@)[0] != ("sra"@)[0]);
            assert(("blt"@)[0] != ("sll"@)[0]);
            assert(("blt"@)[0] != ("srl"@)[0]);
            assert(lookup_mnemonic("blt"@) == Some(Instructions::BLT));
        },
        Instructions::BLTU => {
            assert(("bltu"@)[0] != ("slts"@)[0]);
            assert(("bltu"@)[0] != ("sltu"@)[0]);
            assert(lookup_mnemonic("bltu"@) == Some(Instructions::BLTU));
        },
        Instructions::BGE => {
            assert(("bge"@)[0] != ("add"@)[0]);
            assert(("bge"@)[0] != ("sub"@)[0]);
            assert(("bge"@)[0] != ("xor"@)[0]);
            assert(("bge"@)[0] != ("and"@)[0]);
            assert(("bge"@)[0] != ("sra"@)[0]);
            assert(("bge"@)[0] != ("sll"@)[0]);
            assert(("bge"@)[0] != ("srl"@)[0]);
            assert(("bge"@)[1] != ("blt"@)[1]);
            assert(lookup_mnemonic("bge"@) == Some(Instructions::BGE));
        },
        Instructions::BGEU => {
            assert(("bgeu"@)[0] != ("slts"@)[0]);
            assert(("bgeu"@)[0] != ("sltu"@)[0]);
            assert(("bgeu"@)[1] != ("bltu"@)[1]);
            assert(lookup_mnemonic("bgeu"@) == Some(Instructions::BGEU));
        },
        Instructions::BEQ => {
            assert(("beq"@)[0] != ("add"@)[0]);
            assert(("beq"@)[0] != ("sub"@)[0]);
            assert(("beq"@)[0] != ("xor"@)[0]);
            assert(("beq"@)[0] != ("and"@)[0]);
            assert(("beq"@)[0] != ("sra"@)[0]);
            assert(("beq"@)[0] != ("sll"@)[0]);
            assert(("beq"@)[0] != ("srl"@)[0]);
            assert(("beq"@)[1] != ("blt"@)[1]);
            assert(("beq"@)[1] != ("bge"@)[1]);
            assert(lookup_mnemonic("beq"@) == Some(Instructions::BEQ));
        },
        Instructions::BNE => {
            assert(("bne"@)[0] != ("add"@)[0]);
            assert(("bne"@)[0] != ("sub"@)[0]);
            assert(("bne"@)[0] != ("xor"@)[0]);
            assert(("bne"@)[0] != ("and"@)[0]);
            assert(("bne"@)[0] != ("sra"@)[0]);
            assert(("bne"@)[0] != ("sll"@)[0]);
            assert(("bne"@)[0] != ("srl"@)[0]);
            assert(("bne"@)[1] != ("blt"@)[1]);
            assert(("bne"@)[1] != ("bge"@)[1]);
            assert(("bne"@)[1] != ("beq"@)[1]);
            assert(lookup_mnemonic("bne"@) == Some(Instructions::BNE));
        },
        Instructions::LI => {
            assert(("li"@)[0] != ("or"@)[0]);
            assert(lookup_mnemonic("li"@) == Some(Instructions::LI));
        },
        Instructions::J => {

            assert(lookup_mnemonic("j"@) == Some(Instructions::J));
        },
        Instructions::CIN => {
            assert(("cin"@)[0] != ("add"@)[0]);
            assert(("cin"@)[0] != ("sub"@)[0]);
            assert(("cin"@)[0] != ("xor"@)[0]);
            assert(("cin"@)[0] != ("and"@)[0]);
            assert(("cin"@)[0] != ("sra"@)[0]);
            assert(("cin"@)[0] != ("sll"@)[0]);
            assert(("cin"@)[0] != ("srl"@)[0]);
            assert(("cin"@)[0] != ("blt"@)[0]);
            assert(("cin"@)[0] != ("bge"@)[0]);
            assert(("cin"@)[0] != ("beq"@)[0]);
            assert(("cin"@)[0] != ("bne"@)[0]);
            assert(lookup_mnemonic("cin"@) == Some(Instructions::CIN));
        },
        Instructions::COUT => {
            assert(("cout"@)[0] != ("slts"@)[0]);
            assert(("cout"@)[0] != ("sltu"@)[0]);
            assert(("cout"@)[0] != ("bltu"@)[0]);
            assert(("cout"@)[0] != ("bgeu"@)[0]);
            assert(lookup_mnemonic("cout"@) == Some(Instructions::COUT));
        },
    }
}

/// The label flag is derived, not stored: it is true exactly for the
/// mnemonics whose operand signature includes a label operand.
pub proof fn lemma_has_label_matches_signature(m: Instructions)
    ensures
        spec_has_label(m) <==> exists|j: int|
            0 <= j < spec_signature(m).len() && spec_signature(m)[j] == ArgType::Label,
{
    match spec_type_of(m) {
        InstructionType::Compute => {
            assert(forall|j: int|
                0 <= j < spec_signature(m).len() ==> spec_signature(m)[j] == ArgType::Register);
        },
        InstructionType::Branch => {
            assert(spec_signature(m)[2] == ArgType::Label);
        },
        InstructionType::Li => {
            assert(spec_signature(m)[0] == ArgType::Register);
            assert(spec_signature(m)[1] == ArgType::Constant);
            assert(forall|j: int|
                0 <= j < spec_signature(m).len() ==> spec_signature(m)[j] != ArgType::Label);
        },
        InstructionType::In => {
            assert(spec_signature(m).len() == 0);
        },
        InstructionType::Jump => {
            assert(spec_signature(m)[0] == ArgType::Label);
        },
    }
}

/// Label resolution is order-independent: when exactly one table entry
/// defines a name, lookup yields that entry's index wherever the entry
/// stands in the table, so a reference before the textual definition
/// resolves as one after it.
pub proof fn lemma_lookup_unique(ls: Seq<LabelV>, name: Seq<char>, j: int)
    requires
        0 <= j < ls.len(),
        ls[j].name == name,
        forall|t: int| 0 <= t < ls.len() && t != j ==> ls[t].name != name,
    ensures
        lookup_label(ls, name) == Some(ls[j].index),
    decreases ls.len(),
{
    if j == 0 {
    } else {
        assert(ls[0].name != name);
        let rest = ls.drop_first();
        assert(forall|t: int| 0 <= t < rest.len() ==> rest[t] == ls[t + 1]);
        lemma_lookup_unique(rest, name, j - 1);
    }
}

} // verus!
