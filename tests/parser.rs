use asm8::lexer::{Lexer, TokenKind};
use asm8::shared::{Case, Op};
use asm8::{to_bytes, Parser};

fn parse_ops(src: &str) -> Result<Vec<Op>, (String, TokenKind, usize)> {
    let tokens = Lexer { input: src }.lex();
    let mut parser = Parser { input: tokens };
    match parser.parse() {
        Ok(ops) => Ok(ops),
        Err(e) => Err((e.cause.to_string(), e.responsible.kind.clone(), e.responsible.line)),
    }
}

fn ops(src: &str) -> Vec<Op> {
    parse_ops(src).unwrap()
}

fn fault(src: &str) -> (String, TokenKind) {
    let (cause, kind, _) = parse_ops(src).unwrap_err();
    (cause, kind)
}

fn bytes(src: &str) -> Vec<u8> {
    let mut out = Vec::new();
    to_bytes(ops(src), &mut out);
    out
}

fn sym(s: &str) -> TokenKind {
    TokenKind::Symbol(s.to_string())
}

#[test]
fn test_parser() {
    let lexer = Lexer {
        input: " add 7 to x label as lol # is our function \n jmp if z > x to lol shr a shl n halt",
    };
    let tokens = lexer.lex();

    let mut parser = Parser { input: tokens };
    let recipe = parser.parse().unwrap();
    println!("{:?}", recipe);

    let mut out = Vec::new();
    to_bytes(recipe, &mut out);
    println!("{:?}", out);
}

#[test]
fn parser_resolves_commented_program() {
    // Here `label as lol` is inside the comment, so the jump has no label.
    let (cause, kind) = fault("jmp to lol # label as lol\n halt");
    assert_eq!(cause, "Jumping to undefined label");
    assert_eq!(kind, sym("lol"));
    assert_eq!(
        ops(" add 7 to x label as lol # is our function \n jmp if z > x to lol shr a shl n halt"),
        vec![
            Op::ADDRN(1, 7),
            Op::JMPIF(Case::GRT(3, 1), 3),
            Op::SHR(4),
            Op::SHL(0),
            Op::HALT
        ]
    );
}

#[test]
fn mov_encodings() {
    assert_eq!(ops("mov 1 to a"), vec![Op::MOVRN(4, 1)]);
    assert_eq!(ops("mov b to a"), vec![Op::MOVRR(4, 5)]);
    assert_eq!(ops("mov $9 to a"), vec![Op::MOVRA(4, 9)]);
    assert_eq!(ops("mov $b to a"), vec![Op::MOVRX(4, 5)]);
    assert_eq!(ops("mov 1 to $9"), vec![Op::MOVAN(9, 1)]);
    assert_eq!(ops("mov b to $9"), vec![Op::MOVAR(9, 5)]);
    assert_eq!(ops("mov $8 to $9"), vec![Op::MOVAA(9, 8)]);
    assert_eq!(ops("mov $b to $9"), vec![Op::MOVAX(9, 5)]);
    assert_eq!(ops("mov 1 to $a"), vec![Op::MOVXN(4, 1)]);
    assert_eq!(ops("mov b to $a"), vec![Op::MOVXR(4, 5)]);
    assert_eq!(ops("mov $8 to $a"), vec![Op::MOVXA(4, 8)]);
    assert_eq!(ops("mov $b to $a"), vec![Op::MOVXX(4, 5)]);
}

#[test]
fn arithmetic_and_logic_encodings() {
    assert_eq!(
        ops("add 1 to i add n to i sub 2 from c sub x from c"),
        vec![Op::ADDRN(7, 1), Op::ADDRR(7, 0), Op::SUBRN(6, 2), Op::SUBRR(6, 1)]
    );
    assert_eq!(
        ops("and a with 1 and a with b or a with 2 or a with b xor a with 3 xor a with b"),
        vec![
            Op::ANDRN(4, 1),
            Op::ANDRR(4, 5),
            Op::ORRN(4, 2),
            Op::ORRR(4, 5),
            Op::XORRN(4, 3),
            Op::XORRR(4, 5)
        ]
    );
    assert_eq!(ops("shr y shl z print a halt"), vec![Op::SHR(2), Op::SHL(3), Op::PRINT(4), Op::HALT]);
}

#[test]
fn comparison_operators() {
    let src = "label as l jmp if a == b to l jmp if a != b to l jmp if a < b to l \
               jmp if a > b to l jmp if a <= b to l jmp if a >= b to l";
    assert_eq!(
        ops(src),
        vec![
            Op::JMPIF(Case::EQ(4, 5), 0),
            Op::JMPIF(Case::NEQ(4, 5), 0),
            Op::JMPIF(Case::LSR(4, 5), 0),
            Op::JMPIF(Case::GRT(4, 5), 0),
            Op::JMPIF(Case::LSREQ(4, 5), 0),
            Op::JMPIF(Case::GRTEQ(4, 5), 0)
        ]
    );
}

#[test]
fn bad_comparison_operators() {
    assert_eq!(fault("jmp if a = b to l").0, "Expected a comparison operator here");
    assert_eq!(fault("jmp if a >> b to l").0, "Expected a comparison operator here");
    assert_eq!(fault("jmp if a ! b to l").0, "Expected a comparison operator here");
    assert_eq!(fault("jmp if a < 3 to l"), ("Must be a register".to_string(), TokenKind::Number(3)));
    assert_eq!(fault("jmp if 1 < b to l"), ("Must be a register".to_string(), TokenKind::Number(1)));
}

#[test]
fn label_placement() {
    // The label stands for the byte after the operations before it: 3 + 1 + 2 + 5.
    assert_eq!(
        ops("mov 1 to a halt print a jmp if a == a to end label as end jmp to end"),
        vec![
            Op::MOVRN(4, 1),
            Op::HALT,
            Op::PRINT(4),
            Op::JMPIF(Case::EQ(4, 4), 11),
            Op::JMP(11)
        ]
    );
}

#[test]
fn forward_and_backward_jumps_encode_alike() {
    let b = bytes("jmp to l halt label as l jmp to l");
    assert_eq!(b, vec![0x0F, 3, 0xFF, 0x0F, 3]);
    assert_eq!(b[0..2], b[3..5]);
}

#[test]
fn redeclared_label_uses_last_declaration() {
    assert_eq!(ops("label as l halt label as l jmp to l"), vec![Op::HALT, Op::JMP(1)]);
}

#[test]
fn size_law() {
    let program = ops("mov 1 to a print a jmp if a < b to l label as l shr a halt");
    let total: usize = program.iter().map(|op| op.get_size()).sum();
    let mut out = Vec::new();
    to_bytes(program, &mut out);
    assert_eq!(out.len(), total);
    assert_eq!(total, 3 + 2 + 5 + 2 + 1);
}

#[test]
fn to_bytes_appends() {
    let mut out = vec![7u8];
    to_bytes(vec![Op::JMPIF(Case::GRTEQ(1, 2), 9), Op::NOOP, Op::MULRN(1, 2)], &mut out);
    assert_eq!(out, vec![7, 0x1F, 0x05, 1, 2, 9, 0x00, 0x0C, 1, 2]);
}

#[test]
fn empty_program() {
    assert_eq!(ops(""), vec![]);
    assert_eq!(ops("# nothing here"), vec![]);
}

#[test]
fn parse_faults() {
    let n = |s: &str| TokenKind::Number(s.parse().unwrap());
    assert_eq!(fault("mov 256 to a"), ("Integers should be between 0 and 255 (included)".to_string(), n("256")));
    assert_eq!(fault("mov 1 to $300"), ("Integers should be between 0 and 255 (included)".to_string(), n("300")));
    assert_eq!(fault("mov 1 to 2").0, "Expected a register or an address here");
    assert_eq!(fault("mov to to a").0, "Expected a register, an address or a number here");
    assert_eq!(fault("mov 1 a").0, "Expected 'to' here");
    assert_eq!(fault("mov $").0, "Nothing to dereference after here");
    assert_eq!(fault("mov").0, "Missing source after here");
    assert_eq!(fault("mov 1").0, "Missing 'to' after here");
    assert_eq!(fault("mov 1 to").0, "Missing destination after here");
    assert_eq!(fault("mov 1 to $").0, "Nothing to dereference after here");
    assert_eq!(fault("add 1 from a").0, "Expected 'to' here");
    assert_eq!(fault("sub 1 to a").0, "Expected 'from' here");
    assert_eq!(fault("sub 1").0, "Missing 'from' after here");
    assert_eq!(fault("add 1 to 2").0, "Expected a register here");
    assert_eq!(fault("add x to a with").0, "Expected an operation or directive here");
    assert_eq!(fault("add foo to a").0, "Expected a register or a number here");
    assert_eq!(fault("and 1 with a").0, "Expected a register here");
    assert_eq!(fault("or a to b").0, "Expected 'with' here");
    assert_eq!(fault("xor a with").0, "Missing register or number after here");
    assert_eq!(fault("print").0, "Missing a register after here");
    assert_eq!(fault("print 5").0, "Expected a register here");
    assert_eq!(fault("jmp").0, "Missing 'to' or 'if' here");
    assert_eq!(fault("jmp to").0, "Missing label after here");
    assert_eq!(fault("jmp to 5").0, "Is not a label");
    assert_eq!(fault("jmp from l").0, "Expected 'to' here");
    assert_eq!(fault("jmp if").0, "Missing left-hand side of comparison after here");
    assert_eq!(fault("jmp if a").0, "Missing comparison operator after here");
    assert_eq!(fault("jmp if a <").0, "Missing right-hand side of comparison after here");
    assert_eq!(fault("jmp if a < =").0, "Missing right-hand side of comparison after here");
    assert_eq!(fault("jmp if a < b").0, "Missing 'to' after here");
    assert_eq!(fault("label to x").0, "Expected 'as' here");
    assert_eq!(fault("label").0, "Missing 'as' after here");
    assert_eq!(fault("label as").0, "Missing a label name after here");
    assert_eq!(fault("label as 5").0, "Label name cannot be a number or a keyword");
    assert_eq!(fault("hello").0, "Expected an operation or directive here");
}

#[test]
fn first_fault_wins_over_undefined_label() {
    assert_eq!(fault("jmp to nowhere print 7").0, "Expected a register here");
}

#[test]
fn program_larger_than_memory_is_rejected() {
    let fits = "halt ".repeat(256);
    assert_eq!(ops(&fits).len(), 256);
    let too_big = "halt ".repeat(257);
    assert_eq!(fault(&too_big), ("Program does not fit in 256 bytes of memory".to_string(), TokenKind::Ins(asm8::lexer::Instruction::Halt)));
    let label_at_end = format!("{}label as end", "halt ".repeat(256));
    assert_eq!(fault(&label_at_end), ("Label address does not fit in a byte".to_string(), sym("end")));
}

#[test]
fn fault_reports_the_line() {
    let (_, _, line) = parse_ops("halt\nhalt\n  mov 1 to 2").unwrap_err();
    assert_eq!(line, 2);
}

#[test]
fn jumps_around_a_label_land_on_its_offset() {
    let program = ops("mov 1 to a jmp to l print a label as l add 1 to a jmp to l halt");
    let off = |k: usize| -> usize { program[0..k].iter().map(|op| op.get_size()).sum() };
    // `label as l` follows three operations.
    let addr = off(3) as u8;
    assert_eq!(addr, 7);
    let (i, j) = (off(1), off(4));
    let mut dest = Vec::new();
    to_bytes(program.clone(), &mut dest);
    assert_eq!(dest[i..i + 2], [0x0F, addr]);
    assert_eq!(dest[j..j + 2], [0x0F, addr]);
}
