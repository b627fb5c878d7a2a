use jvm_assembler::{
    Attribute, Classfile, Constant, DecodeError, Instruction, LineNumberTableEntry, Method, StackMapFrame,
    VerificationType,
};

fn pool() -> Vec<Constant> {
    vec![
        Constant::Utf8("Code".to_string()),
        Constant::Utf8("StackMapTable".to_string()),
        Constant::Utf8("LineNumberTable".to_string()),
        Constant::Utf8("SourceFile".to_string()),
        Constant::Utf8("Sample.java".to_string()),
        Constant::Utf8("héllo wörld ☕".to_string()),
        Constant::Class(5),
        Constant::String(6),
        Constant::NameAndType(1, 2),
        Constant::Fieldref(7, 9),
        Constant::Methodref(7, 9),
    ]
}

fn all_frames() -> Vec<StackMapFrame> {
    vec![
        StackMapFrame::SameFrame(5),
        StackMapFrame::SameLocals1StackItemFrame(3, VerificationType::Integer),
        StackMapFrame::SameLocals1StackItemFrameExtended(300, VerificationType::Object(2)),
        StackMapFrame::ChopFrame(2, 7),
        StackMapFrame::SameFrameExtended(1000),
        StackMapFrame::AppendFrame(2, 9, vec![VerificationType::Top, VerificationType::Null]),
        StackMapFrame::FullFrame(
            12,
            vec![VerificationType::Float, VerificationType::Long, VerificationType::Double],
            vec![VerificationType::UninitializedThis, VerificationType::Uninitialized(4)],
        ),
    ]
}

fn all_instructions() -> Vec<Instruction> {
    vec![
        Instruction::IconstM1,
        Instruction::Iconst0,
        Instruction::Iconst1,
        Instruction::Iconst2,
        Instruction::Iconst3,
        Instruction::Iconst4,
        Instruction::Iconst5,
        Instruction::Bipush(200),
        Instruction::LoadConstant(8),
        Instruction::Aload0,
        Instruction::Aload1,
        Instruction::Aload2,
        Instruction::Aload3,
        Instruction::Aaload,
        Instruction::Iadd,
        Instruction::IfEq(1),
        Instruction::IfNe(2),
        Instruction::IfLt(3),
        Instruction::IfGe(4),
        Instruction::IfGt(5),
        Instruction::IfLe(6),
        Instruction::IfIcmpEq(7),
        Instruction::IfIcmpNe(8),
        Instruction::IfIcmpLt(9),
        Instruction::IfIcmpGe(10),
        Instruction::IfIcmpGt(11),
        Instruction::IfIcmpLe(0xFFFF),
        Instruction::Goto(0x8000),
        Instruction::Return,
        Instruction::GetStatic(10),
        Instruction::InvokeVirtual(11),
        Instruction::InvokeSpecial(11),
        Instruction::InvokeStatic(11),
        Instruction::ArrayLength,
    ]
}

fn sample(code: Vec<Instruction>) -> Classfile {
    let nested = vec![
        Attribute::StackMapTable(2, all_frames()),
        Attribute::LineNumberTable(
            3,
            vec![
                LineNumberTableEntry { start_pc: 0, line_number: 1 },
                LineNumberTableEntry { start_pc: 4, line_number: 513 },
            ],
        ),
    ];
    let code_attribute = Attribute::Code(1, 4, 1, code, vec![], nested);
    let methods = vec![Method::new(9, 5, 6, vec![code_attribute])];
    let mut classfile = Classfile::new(pool(), 0x21, 7, 7, methods);
    classfile.attributes.push(Attribute::SourceFile(4, 5));
    classfile
}

fn bytes_of(classfile: Classfile) -> Vec<u8> {
    let mut bytes = vec![];
    classfile.serialize(&mut bytes);
    bytes
}

#[test]
fn every_kind_round_trips() {
    let bytes = bytes_of(sample(all_instructions()));
    assert_eq!(Classfile::deserialize(&bytes), Ok(sample(all_instructions())));
}

#[test]
fn header_and_pool_count() {
    let bytes = bytes_of(sample(vec![Instruction::Return]));
    assert_eq!(&bytes[0..8], &[0xCA, 0xFE, 0xBA, 0xBE, 0, 0, 0, 52]);
    // Eleven entries: the count field holds twelve.
    assert_eq!(&bytes[8..10], &[0, 12]);
    // The first entry: tag 1, length 4, "Code".
    assert_eq!(&bytes[10..17], &[1, 0, 4, b'C', b'o', b'd', b'e']);
}

#[test]
fn empty_pool_count_is_one() {
    let bytes = bytes_of(Classfile::new(vec![], 1, 0, 0, vec![]));
    assert_eq!(bytes, vec![0xCA, 0xFE, 0xBA, 0xBE, 0, 0, 0, 52, 0, 1, 0, 1, 0, 0, 0, 0, 0, 0, 0, 0, 0, 0, 0, 0]);
    assert_eq!(Classfile::deserialize(&bytes), Ok(Classfile::new(vec![], 1, 0, 0, vec![])));
}

#[test]
fn trailing_bytes_are_not_read() {
    let mut bytes = bytes_of(sample(vec![Instruction::Iconst1]));
    bytes.extend_from_slice(&[1, 2, 3]);
    assert_eq!(Classfile::deserialize(&bytes), Ok(sample(vec![Instruction::Iconst1])));
}

/// The offset of the four-byte code length in `sample`'s bytes.
fn code_length_offset() -> usize {
    let mut pool_bytes = vec![];
    Classfile::new(pool(), 0, 0, 0, vec![]).serialize(&mut pool_bytes);
    // header and pool, then flags, classes, interface and field counts
    let after_pool = pool_bytes.len() - 14;
    // method count, method header, attribute count, name, length, max_stack, max_locals
    after_pool + 10 + 2 + 6 + 2 + 2 + 4 + 2 + 2
}

#[test]
fn each_instruction_writes_its_size() {
    let at = code_length_offset();
    for instruction in all_instructions() {
        let bytes = bytes_of(sample(vec![instruction]));
        let written = u32::from_be_bytes([bytes[at], bytes[at + 1], bytes[at + 2], bytes[at + 3]]);
        assert_eq!(written, instruction.size() as u32, "{:?}", instruction);
        assert_eq!(bytes[at + 4], instruction.opcode());
    }
    let total: u32 = all_instructions().iter().map(|i| i.size() as u32).sum();
    let bytes = bytes_of(sample(all_instructions()));
    assert_eq!(u32::from_be_bytes([bytes[at], bytes[at + 1], bytes[at + 2], bytes[at + 3]]), total);
}

#[test]
fn text_is_decoded_as_utf8() {
    let bytes = bytes_of(Classfile::new(vec![Constant::Utf8("ünï".to_string())], 0, 0, 0, vec![]));
    assert_eq!(&bytes[10..18], &[1, 0, 5, 0xC3, 0xBC, b'n', 0xC3, 0xAF]);
    let decoded = Classfile::deserialize(&bytes).unwrap();
    assert_eq!(decoded.lookup_string(1).map(|s| s.as_str()), Some("ünï"));
    assert!(decoded.lookup_string(2).is_none());
    assert!(decoded.lookup_string(0).is_none());
}

#[test]
fn invalid_utf8_is_malformed() {
    let mut bytes = bytes_of(Classfile::new(vec![Constant::Utf8("ab".to_string())], 0, 0, 0, vec![]));
    bytes[13] = 0xFF;
    assert_eq!(Classfile::deserialize(&bytes), Err(DecodeError::Malformed));
}

#[test]
fn truncated_input_is_malformed() {
    let bytes = bytes_of(sample(all_instructions()));
    for cut in [0, 3, 9, 20, bytes.len() / 2, bytes.len() - 1] {
        assert_eq!(Classfile::deserialize(&bytes[..cut].to_vec()), Err(DecodeError::Malformed), "cut at {}", cut);
    }
}

#[test]
fn zero_pool_count_is_malformed() {
    let bytes = vec![0xCA, 0xFE, 0xBA, 0xBE, 0, 0, 0, 52, 0, 0, 0, 1, 0, 0, 0, 0, 0, 0, 0, 0, 0, 0, 0, 0];
    assert_eq!(Classfile::deserialize(&bytes), Err(DecodeError::Malformed));
}

#[test]
fn unknown_constant_tag_is_malformed() {
    let mut bytes = bytes_of(Classfile::new(vec![Constant::Class(1)], 0, 0, 0, vec![]));
    assert_eq!(bytes[10], 7);
    bytes[10] = 3;
    assert_eq!(Classfile::deserialize(&bytes), Err(DecodeError::Malformed));
}

#[test]
fn interfaces_are_malformed() {
    let mut bytes = bytes_of(Classfile::new(vec![], 0, 0, 0, vec![]));
    bytes[17] = 1;
    assert_eq!(Classfile::deserialize(&bytes), Err(DecodeError::Malformed));
}

#[test]
fn unknown_opcode_is_malformed() {
    let at = code_length_offset();
    let mut bytes = bytes_of(sample(vec![Instruction::Return]));
    assert_eq!(bytes[at + 4], 0xB1);
    bytes[at + 4] = 0xFF;
    assert_eq!(Classfile::deserialize(&bytes), Err(DecodeError::Malformed));
}

#[test]
fn instruction_overrunning_the_code_is_malformed() {
    let at = code_length_offset();
    let mut bytes = bytes_of(sample(vec![Instruction::Return, Instruction::Return]));
    bytes[at + 5] = 0x10;
    assert_eq!(Classfile::deserialize(&bytes), Err(DecodeError::Malformed));
}

#[test]
fn unknown_attribute_name_is_malformed() {
    let mut classfile = Classfile::new(pool(), 0, 7, 7, vec![]);
    classfile.attributes.push(Attribute::SourceFile(5, 5));
    let bytes = bytes_of(classfile);
    assert_eq!(Classfile::deserialize(&bytes), Err(DecodeError::Malformed));
}

#[test]
fn attribute_named_by_a_non_text_entry_is_malformed() {
    let mut classfile = Classfile::new(pool(), 0, 7, 7, vec![]);
    classfile.attributes.push(Attribute::SourceFile(7, 5));
    assert_eq!(Classfile::deserialize(&bytes_of(classfile)), Err(DecodeError::Malformed));
}

#[test]
fn unknown_frame_type_is_malformed() {
    let mut classfile = Classfile::new(pool(), 0, 7, 7, vec![]);
    classfile.attributes.push(Attribute::StackMapTable(2, vec![StackMapFrame::SameFrame(0)]));
    let mut bytes = bytes_of(classfile);
    let last = bytes.len() - 1;
    assert_eq!(bytes[last], 0);
    assert!(Classfile::deserialize(&bytes).is_ok());
    bytes[last] = 200;
    assert_eq!(Classfile::deserialize(&bytes), Err(DecodeError::Malformed));
}

#[test]
fn unknown_verification_tag_is_malformed() {
    let mut classfile = Classfile::new(pool(), 0, 7, 7, vec![]);
    classfile.attributes.push(Attribute::StackMapTable(
        2,
        vec![StackMapFrame::SameLocals1StackItemFrame(0, VerificationType::Top)],
    ));
    let mut bytes = bytes_of(classfile);
    let last = bytes.len() - 1;
    assert_eq!(bytes[last], 0);
    assert_eq!(bytes[last - 1], 64);
    bytes[last] = 9;
    assert_eq!(Classfile::deserialize(&bytes), Err(DecodeError::Malformed));
}

#[test]
fn attribute_body_longer_than_its_fields_is_malformed() {
    let mut classfile = Classfile::new(pool(), 0, 7, 7, vec![]);
    classfile.attributes.push(Attribute::SourceFile(4, 5));
    let mut bytes = bytes_of(classfile);
    // name index, then body length 2
    let len_at = bytes.len() - 6;
    assert_eq!(&bytes[len_at..len_at + 4], &[0, 0, 0, 2]);
    bytes[len_at + 3] = 3;
    bytes.push(0);
    assert_eq!(Classfile::deserialize(&bytes), Err(DecodeError::Malformed));
}

#[test]
fn lookup_constant_is_one_based() {
    let classfile = Classfile::new(pool(), 0, 7, 7, vec![]);
    assert_eq!(classfile.lookup_constant(7), Some(&Constant::Class(5)));
    assert_eq!(classfile.lookup_constant(0), None);
    assert_eq!(classfile.lookup_constant(12), None);
    assert_eq!(classfile.lookup_string(4).map(|s| s.as_str()), Some("SourceFile"));
    assert_eq!(classfile.lookup_string(8), None);
}

fn print_hello_world() -> Classfile {
    let constants = vec![
        Constant::String(2),
        Constant::Utf8("Hello World!".to_owned()),
        Constant::Utf8("main".to_owned()),
        Constant::Utf8("([Ljava/lang/String;)V".to_owned()),
        Constant::Utf8("java/lang/System".to_owned()),
        Constant::Class(5),
        Constant::Utf8("out".to_owned()),
        Constant::Utf8("Ljava/io/PrintStream;".to_owned()),
        Constant::NameAndType(7, 8),
        Constant::Fieldref(6, 9),
        Constant::Utf8("java/io/PrintStream".to_owned()),
        Constant::Class(11),
        Constant::Utf8("println".to_owned()),
        Constant::Utf8("(Ljava/lang/Object;)V".to_owned()),
        Constant::NameAndType(13, 14),
        Constant::Methodref(12, 15),
        Constant::Utf8("Code".to_owned()),
        Constant::Utf8("hello".to_owned()),
        Constant::Class(18),
        Constant::Utf8("java/lang/Object".to_owned()),
        Constant::Class(20),
    ];
    let instructions = vec![
        Instruction::GetStatic(10),
        Instruction::LoadConstant(1),
        Instruction::InvokeVirtual(16),
        Instruction::Return,
    ];
    let methods = vec![Method::new(0x9, 3, 4, vec![Attribute::Code(17, 2, 1, instructions, vec![], vec![])])];
    Classfile::new(constants, 0x1, 19, 21, methods)
}

fn print_numbers(code: Vec<Instruction>, max_stack: u16) -> Classfile {
    let constants = vec![
        Constant::Utf8("main".to_owned()),
        Constant::Utf8("([Ljava/lang/String;)V".to_owned()),
        Constant::Utf8("java/lang/System".to_owned()),
        Constant::Class(3),
        Constant::Utf8("out".to_owned()),
        Constant::Utf8("Ljava/io/PrintStream;".to_owned()),
        Constant::NameAndType(5, 6),
        Constant::Fieldref(4, 7),
        Constant::Utf8("java/io/PrintStream".to_owned()),
        Constant::Class(9),
        Constant::Utf8("println".to_owned()),
        Constant::Utf8("(I)V".to_owned()),
        Constant::NameAndType(11, 12),
        Constant::Methodref(10, 13),
        Constant::Utf8("Code".to_owned()),
        Constant::Utf8("hello".to_owned()),
        Constant::Class(16),
        Constant::Utf8("java/lang/Object".to_owned()),
        Constant::Class(18),
    ];
    let methods = vec![Method::new(0x9, 1, 2, vec![Attribute::Code(15, max_stack, 1, code, vec![], vec![])])];
    Classfile::new(constants, 0x1, 17, 19, methods)
}

fn print_integer() -> Classfile {
    print_numbers(
        vec![Instruction::GetStatic(8), Instruction::Bipush(42), Instruction::InvokeVirtual(14), Instruction::Return],
        2,
    )
}

fn print_addition_result() -> Classfile {
    print_numbers(
        vec![
            Instruction::GetStatic(8),
            Instruction::Bipush(11),
            Instruction::Bipush(37),
            Instruction::Iadd,
            Instruction::Bipush(42),
            Instruction::Iadd,
            Instruction::InvokeVirtual(14),
            Instruction::Return,
        ],
        3,
    )
}

#[test]
fn hand_built_classfiles_round_trip() {
    for (built, again) in [
        (print_hello_world(), print_hello_world()),
        (print_integer(), print_integer()),
        (print_addition_result(), print_addition_result()),
    ] {
        let bytes = bytes_of(built);
        assert_eq!(Classfile::deserialize(&bytes), Ok(again));
    }
}

#[test]
fn hand_built_hello_world_bytes() {
    let bytes = bytes_of(print_hello_world());
    // 21 entries: the count field holds 22; the first entry is String(2).
    assert_eq!(&bytes[8..13], &[0, 22, 8, 0, 2]);
    // Instruction stream: getstatic #10, ldc #1, invokevirtual #16, return.
    let code = [0xB2, 0, 10, 0x12, 1, 0xB6, 0, 16, 0xB1];
    let at = bytes.windows(code.len()).position(|w| w == code).unwrap();
    assert_eq!(&bytes[at - 4..at], &[0, 0, 0, 9]);
}
