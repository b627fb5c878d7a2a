use jvm_assembler::{
    define_class, method_signature, Attribute, BuildError, Classfile, Constant, Instruction, Java, StackMapFrame,
    ACC_PUBLIC, ACC_STATIC,
};

fn code_of(classfile: &Classfile, method: usize) -> (u16, Vec<Instruction>, Vec<StackMapFrame>) {
    match &classfile.methods[method].attributes[0] {
        Attribute::Code(_, max_stack, _, code, _, nested) => {
            let frames = match &nested[0] {
                Attribute::StackMapTable(_, frames) => frames.clone(),
                other => panic!("expected a stack-map table, found {:?}", other),
            };
            (*max_stack, code.clone(), frames)
        },
        other => panic!("expected a Code attribute, found {:?}", other),
    }
}

fn round_trip(classfile: Classfile) -> Classfile {
    let mut bytes = vec![];
    classfile.serialize(&mut bytes);
    Classfile::deserialize(&bytes).unwrap()
}

fn hello_world() -> Classfile {
    let class = define_class(ACC_PUBLIC, "hello_world", "java/lang/Object");
    let descriptor = method_signature(&[Java::Array(Box::new(Java::Class("java/lang/String")))], &Java::Void);
    let mut method = class.define_method(ACC_PUBLIC | ACC_STATIC, "main", &descriptor);
    method.get_static("java/lang/System", "out", &Java::Class("java/io/PrintStream").descriptor());
    method.load_constant("Hello, World!").unwrap();
    method.invoke_virtual("java/io/PrintStream", "println", "(Ljava/lang/Object;)V", 1, false);
    method.do_return();
    let class = method.done().unwrap();
    class.done()
}

#[test]
fn hello_world_decodes_to_its_instructions() {
    let decoded = round_trip(hello_world());
    let (max_stack, code, _) = code_of(&decoded, 0);
    assert_eq!(
        code,
        vec![
            Instruction::GetStatic(12),
            Instruction::LoadConstant(14),
            Instruction::InvokeVirtual(20),
            Instruction::Return,
        ]
    );
    assert_eq!(max_stack, 2);
    assert_eq!(decoded.lookup_string(decoded.constant_pool.len() as u16).unwrap(), "Code");
    assert_eq!(decoded.lookup_string(13).unwrap(), "Hello, World!");
}

#[test]
fn hello_world_round_trips() {
    assert_eq!(round_trip(hello_world()), hello_world());
}

fn simple_addition() -> Classfile {
    let class = define_class(ACC_PUBLIC, "simple_addition", "java/lang/Object");
    let mut method = class.define_method(ACC_PUBLIC | ACC_STATIC, "main", "([Ljava/lang/String;)V");
    method.bipush(11);
    method.bipush(37);
    method.iadd();
    method.bipush(42);
    method.iadd();
    assert_eq!(method.stack_depth(), 1);
    method.do_return();
    method.done().unwrap().done()
}

#[test]
fn simple_addition_peaks_at_two_operands() {
    let decoded = round_trip(simple_addition());
    let (max_stack, code, frames) = code_of(&decoded, 0);
    assert_eq!(
        code,
        vec![
            Instruction::Bipush(11),
            Instruction::Bipush(37),
            Instruction::Iadd,
            Instruction::Bipush(42),
            Instruction::Iadd,
            Instruction::Return,
        ]
    );
    assert_eq!(max_stack, 2);
    assert!(frames.is_empty());
    assert_eq!(decoded, simple_addition());
}

fn if_statement() -> Classfile {
    let class = define_class(ACC_PUBLIC, "if_statement", "java/lang/Object");
    let mut method = class.define_method(ACC_PUBLIC | ACC_STATIC, "main", "([Ljava/lang/String;)V");
    method.aload0();
    method.array_length();
    method.ifle("false");
    method.get_static("java/lang/System", "out", "Ljava/io/PrintStream;");
    method.load_constant("Hello with args!").unwrap();
    method.invoke_virtual("java/io/PrintStream", "println", "(Ljava/lang/String;)V", 1, false);
    method.goto("after");
    method.label("false");
    method.get_static("java/lang/System", "out", "Ljava/io/PrintStream;");
    method.load_constant("Hello without args!").unwrap();
    method.invoke_virtual("java/io/PrintStream", "println", "(Ljava/lang/String;)V", 1, false);
    method.label("after");
    method.do_return();
    method.done().unwrap().done()
}

/// The byte position at which each instruction starts.
fn positions(code: &[Instruction]) -> Vec<u16> {
    let mut at = 0u16;
    let mut out = vec![];
    for i in code {
        out.push(at);
        at += i.size() as u16;
    }
    out
}

#[test]
fn if_statement_branches_land_on_their_labels() {
    let decoded = round_trip(if_statement());
    let (max_stack, code, frames) = code_of(&decoded, 0);
    let at = positions(&code);
    assert_eq!(code[2], Instruction::IfLe(14));
    assert_eq!(code[6], Instruction::Goto(11));
    let false_label = 16u16;
    let after_label = 24u16;
    assert_eq!(at[7], false_label);
    assert_eq!(at[10], after_label);
    assert_eq!(at[2].wrapping_add(14), false_label);
    assert_eq!(at[6].wrapping_add(11), after_label);
    assert_eq!(frames, vec![StackMapFrame::SameFrame(16), StackMapFrame::SameFrame(8)]);
    assert_eq!(max_stack, 2);
}

#[test]
fn backward_goto_has_negative_offset() {
    let class = define_class(ACC_PUBLIC, "spin", "java/lang/Object");
    let mut method = class.define_method(ACC_STATIC, "spin", "()V");
    method.label("top");
    method.aload0();
    method.array_length();
    method.iflt("top");
    method.goto("top");
    let decoded = round_trip(method.done().unwrap().done());
    let (_, code, _) = code_of(&decoded, 0);
    let at = positions(&code);
    let offset = match code[3] {
        Instruction::Goto(o) => o,
        other => panic!("expected goto, found {:?}", other),
    };
    assert_eq!(offset as i16, -5);
    assert_eq!(at[3].wrapping_add(offset), 0);
    assert_eq!(code[2], Instruction::IfLt((-2i16) as u16));
}

fn frames_after_gap(gap: usize) -> Vec<StackMapFrame> {
    let class = define_class(ACC_PUBLIC, "gaps", "java/lang/Object");
    let mut method = class.define_method(ACC_STATIC, "gaps", "()V");
    method.aload0();
    method.label("first");
    for _ in 0..gap {
        method.array_length();
    }
    method.label("second");
    method.do_return();
    let classfile = method.done().unwrap().done();
    code_of(&classfile, 0).2
}

#[test]
fn frame_at_sixty_three_bytes_is_same_frame() {
    assert_eq!(frames_after_gap(63), vec![StackMapFrame::SameFrame(1), StackMapFrame::SameFrame(63)]);
}

#[test]
fn frame_at_sixty_four_bytes_is_extended() {
    assert_eq!(frames_after_gap(64), vec![StackMapFrame::SameFrame(1), StackMapFrame::SameFrameExtended(64)]);
}

#[test]
fn first_frame_far_from_start_is_extended() {
    let class = define_class(ACC_PUBLIC, "far", "java/lang/Object");
    let mut method = class.define_method(ACC_STATIC, "far", "()V");
    for _ in 0..100 {
        method.do_return();
    }
    method.label("end");
    let classfile = method.done().unwrap().done();
    assert_eq!(code_of(&classfile, 0).2, vec![StackMapFrame::SameFrameExtended(100)]);
}

#[test]
fn undefined_label_fails_the_method() {
    let class = define_class(ACC_PUBLIC, "broken", "java/lang/Object");
    let mut method = class.define_method(ACC_STATIC, "broken", "()V");
    method.goto("nowhere");
    method.label("somewhere");
    assert_eq!(method.done().err(), Some(BuildError::UndefinedLabel("nowhere".to_string())));
}

#[test]
fn label_placed_twice_resolves_to_the_later() {
    let class = define_class(ACC_PUBLIC, "twice", "java/lang/Object");
    let mut method = class.define_method(ACC_STATIC, "twice", "()V");
    method.label("l");
    method.goto("l");
    method.label("l");
    method.do_return();
    let classfile = method.done().unwrap().done();
    assert_eq!(code_of(&classfile, 0).1[0], Instruction::Goto(3));
}

#[test]
fn load_constant_beyond_one_byte_index_fails() {
    let class = define_class(ACC_PUBLIC, "many", "java/lang/Object");
    let mut method = class.define_method(ACC_STATIC, "many", "()V");
    // The pool holds 6 entries; each string adds 2.
    for i in 0..124 {
        method.load_constant(&format!("s{}", i)).unwrap();
    }
    assert_eq!(method.load_constant("last"), Err(BuildError::ConstantIndexTooLarge(256)));
    assert_eq!(method.stack_depth(), 124);
}

#[test]
fn load_constant_fails_once_past_index_255() {
    let class = define_class(ACC_PUBLIC, "many", "java/lang/Object");
    let mut method = class.define_method(ACC_STATIC, "many", "()V");
    method.get_static("a", "b", "I");
    method.iadd();
    // 12 entries; 121 more strings reach 254; the next string lands at 256.
    for i in 0..121 {
        method.load_constant(&format!("s{}", i)).unwrap();
    }
    assert!(method.load_constant("next").is_err());
}

#[test]
fn class_entries_are_defined_first() {
    let classfile = define_class(ACC_PUBLIC, "A", "B").done();
    assert_eq!(
        classfile.constant_pool,
        vec![
            Constant::Utf8("A".to_string()),
            Constant::Class(1),
            Constant::Utf8("B".to_string()),
            Constant::Class(3),
        ]
    );
    assert_eq!(classfile.this_class, 2);
    assert_eq!(classfile.super_class, 4);
    assert_eq!(classfile.magic, 0xCAFEBABE);
    assert_eq!(classfile.major_version, 52);
    assert_eq!(classfile.minor_version, 0);
}

#[test]
fn invoke_special_with_result_keeps_one_value() {
    let class = define_class(ACC_PUBLIC, "calls", "java/lang/Object");
    let mut method = class.define_method(ACC_STATIC, "calls", "()V");
    method.aload1();
    method.aload2();
    method.aload3();
    method.invoke_special("X", "f", "(II)I", 2, true);
    assert_eq!(method.stack_depth(), 1);
    method.ifeq("end");
    method.label("end");
    method.do_return();
    let classfile = method.done().unwrap().done();
    let (max_stack, code, _) = code_of(&classfile, 0);
    assert_eq!(max_stack, 3);
    assert_eq!(code[3], Instruction::InvokeSpecial(12));
    assert_eq!(code[4], Instruction::IfEq(3));
}

#[test]
fn every_conditional_branch_resolves() {
    let class = define_class(ACC_PUBLIC, "conds", "java/lang/Object");
    let mut method = class.define_method(ACC_STATIC, "conds", "()V");
    for _ in 0..6 {
        method.bipush(-1);
    }
    method.ifeq("x");
    method.ifne("x");
    method.iflt("x");
    method.ifge("x");
    method.ifgt("x");
    method.ifle("x");
    method.label("x");
    method.do_return();
    let classfile = method.done().unwrap().done();
    let code = code_of(&classfile, 0).1;
    assert_eq!(code[0], Instruction::Bipush(0xFF));
    assert_eq!(
        code[6..12].to_vec(),
        vec![
            Instruction::IfEq(18),
            Instruction::IfNe(15),
            Instruction::IfLt(12),
            Instruction::IfGe(9),
            Instruction::IfGt(6),
            Instruction::IfLe(3),
        ]
    );
}

#[test]
fn method_signature_joins_descriptors() {
    let args = [Java::Int, Java::Array(Box::new(Java::Class("java/lang/String"))), Java::Boolean];
    assert_eq!(method_signature(&args, &Java::Void), "(I[Ljava/lang/String;Z)V");
    assert_eq!(method_signature(&[], &Java::Long), "()J");
    assert_eq!(Java::Array(Box::new(Java::Array(Box::new(Java::Double)))).descriptor(), "[[D");
    let all = [Java::Byte, Java::Char, Java::Short, Java::Float];
    assert_eq!(method_signature(&all, &Java::Int), "(BCSF)I");
}

fn static_methods() -> Classfile {
    let class = define_class(ACC_PUBLIC, "static_methods", "java/lang/Object");
    let mut main = class.define_method(ACC_PUBLIC | ACC_STATIC, "main", "([Ljava/lang/String;)V");
    main.invoke_static("static_methods", "hello_world", "()V", 0, false);
    main.load_constant("Rust").unwrap();
    main.invoke_static("static_methods", "hello_someone", "(Ljava/lang/String;)V", 1, false);
    main.do_return();
    let class = main.done().unwrap();
    let mut hello = class.define_method(ACC_STATIC, "hello_someone", "(Ljava/lang/String;)V");
    hello.get_static("java/lang/System", "out", "Ljava/io/PrintStream;");
    hello.aload0();
    hello.invoke_virtual("java/io/PrintStream", "print", "(Ljava/lang/String;)V", 1, false);
    hello.do_return();
    hello.done().unwrap().done()
}

#[test]
fn static_methods_round_trip() {
    let decoded = round_trip(static_methods());
    assert_eq!(decoded.methods.len(), 2);
    let (max_stack, code, _) = code_of(&decoded, 0);
    assert_eq!(max_stack, 1);
    assert!(matches!(code[0], Instruction::InvokeStatic(_)));
    assert!(matches!(code[2], Instruction::InvokeStatic(_)));
    assert_eq!(code_of(&decoded, 1).1[1], Instruction::Aload0);
    assert_eq!(decoded, static_methods());
}

#[test]
fn nested_if_branches_land_on_their_labels() {
    let class = define_class(ACC_PUBLIC, "if_statement2", "java/lang/Object");
    let mut m = class.define_method(ACC_PUBLIC | ACC_STATIC, "main", "([Ljava/lang/String;)V");
    m.aload0();
    m.array_length();
    m.ifle("outer-else");
    m.aload0();
    m.iconst0();
    m.aaload();
    m.invoke_virtual("java/lang/String", "length", "()I", 0, true);
    m.iconst5();
    m.if_icmp_lt("inner-else");
    m.goto("outer-after");
    m.label("inner-else");
    m.goto("outer-after");
    m.label("outer-else");
    m.label("outer-after");
    m.do_return();
    assert_eq!(m.stack_depth(), 0);
    let decoded = round_trip(m.done().unwrap().done());
    let (max_stack, code, frames) = code_of(&decoded, 0);
    let at = positions(&code);
    // ifle at 2 -> 21, if_icmp_lt at 12 -> 18, gotos at 15 and 18 -> 21
    assert_eq!((at[2], at[8], at[9], at[10]), (2, 12, 15, 18));
    assert_eq!(code[2], Instruction::IfLe(19));
    assert_eq!(code[8], Instruction::IfIcmpLt(6));
    assert_eq!(code[9], Instruction::Goto(6));
    assert_eq!(code[10], Instruction::Goto(3));
    assert_eq!(frames, vec![StackMapFrame::SameFrame(18), StackMapFrame::SameFrame(3), StackMapFrame::SameFrame(0)]);
    assert_eq!(max_stack, 2);
}
