use asm8::lexer::Lexer;
use asm8::machine::{Machine, State, Stop};
use asm8::shared::{Case, Op};
use asm8::{to_bytes, Parser};

fn assemble(src: &str) -> Vec<u8> {
    let tokens = Lexer { input: src }.lex();
    let mut parser = Parser { input: tokens };
    let ops = parser.parse().unwrap();
    let mut out = Vec::new();
    to_bytes(ops, &mut out);
    out
}

fn run(code: Vec<u8>) -> (Machine, Vec<u8>) {
    let mut vm = Machine::new(code);
    vm.start();
    let out = vm.run(100_000);
    (vm, out)
}

fn exit_code(vm: &Machine) -> Option<Stop> {
    vm.finished()
}

#[test]
fn hello_byte() {
    let code = assemble("mov 65 to a  print a  halt");
    assert_eq!(code, vec![0x0E, 0x04, 0x41, 0xA0, 0x04, 0xFF]);
    let (vm, out) = run(code);
    assert_eq!(String::from_utf8(out).unwrap(), "A");
    assert_eq!(exit_code(&vm), Some(Stop::Halted(0)));
}

#[test]
fn wrap_add() {
    let code = assemble("mov 250 to x  add 10 to x  halt");
    assert_eq!(code, vec![0x0E, 0x01, 0xFA, 0x0A, 0x01, 0x0A, 0xFF]);
    let (vm, out) = run(code);
    assert!(out.is_empty());
    assert_eq!(vm.register(1), 4);
    assert_eq!(exit_code(&vm), Some(Stop::Halted(0)));
}

#[test]
fn conditional_loop_needs_register_operands() {
    // A comparison takes two registers, so the literal `3` is refused.
    let tokens = Lexer { input: "mov 0 to x  label as top  add 1 to x  jmp if x < 3 to top  halt" }.lex();
    let mut parser = Parser { input: tokens };
    let err = parser.parse().unwrap_err();
    assert_eq!(err.cause, "Must be a register");
    assert_eq!(err.responsible.kind, asm8::lexer::TokenKind::Number(3));
}

#[test]
fn conditional_loop() {
    // The same loop with the limit held in register y.
    let code = assemble("mov 3 to y  mov 0 to x  label as top  add 1 to x  jmp if x < y to top  halt");
    assert_eq!(code.len(), 3 + 3 + 3 + 5 + 1);
    // `top` is the address of the `add`, right after the two moves.
    assert_eq!(code[6..9], [0x0A, 0x01, 0x01]);
    assert_eq!(code[9..14], [0x1F, 0x02, 0x01, 0x02, 0x06]);
    let (vm, _) = run(code);
    assert_eq!(vm.register(1), 3);
    assert_eq!(exit_code(&vm), Some(Stop::Halted(0)));
}

#[test]
fn loop_body_runs_once_when_the_limit_is_zero() {
    let code = assemble("mov 0 to x  label as top  add 1 to x  jmp if x < y to top  halt");
    assert_eq!(code.len(), 3 + 3 + 5 + 1);
    assert_eq!(code[6..11], [0x1F, 0x02, 0x01, 0x02, 0x03]);
    let (vm, _) = run(code);
    assert_eq!(vm.register(1), 1);
}

#[test]
fn indirect_store() {
    let (vm, _) = run(assemble("mov 200 to y  mov 7 to $y  halt"));
    assert_eq!(vm.memory_at(200), 7);
}

#[test]
fn halt_exit_code() {
    let (vm, _) = run(assemble("mov 42 to c  halt"));
    assert_eq!(exit_code(&vm), Some(Stop::Halted(42)));
    assert_eq!(vm.state(), State::Halted(42));
}

#[test]
fn undefined_label() {
    let tokens = Lexer { input: "jmp to missing  halt" }.lex();
    let mut parser = Parser { input: tokens };
    let err = parser.parse().unwrap_err();
    assert_eq!(err.cause, "Jumping to undefined label");
    assert_eq!(err.responsible.kind, asm8::lexer::TokenKind::Symbol("missing".to_string()));
    assert_eq!(err.responsible.range, 7..14);
}

#[test]
fn arithmetic_wraps() {
    let (vm, _) = run(assemble("mov 255 to a add 1 to a sub 1 from b halt"));
    assert_eq!(vm.register(4), 0);
    assert_eq!(vm.register(5), 255);
    let (vm, _) = run(assemble("mov 200 to a mov 100 to b add b to a sub a from c halt"));
    assert_eq!(vm.register(4), 44);
    assert_eq!(vm.register(6), 212);
}

#[test]
fn logic_and_shifts() {
    let (vm, _) = run(assemble(
        "mov 12 to a and a with 10 mov 12 to b or b with 3 mov 12 to c xor c with 10 \
         mov 129 to x shl x mov 129 to y shr y mov 6 to z mov 3 to i and z with i halt",
    ));
    assert_eq!(vm.register(4), 8);
    assert_eq!(vm.register(5), 15);
    assert_eq!(vm.register(1), 2);
    assert_eq!(vm.register(2), 64);
    assert_eq!(vm.register(3), 2);
    assert_eq!(exit_code(&vm), Some(Stop::Halted(6)));
}

#[test]
fn moves_between_memory_and_registers() {
    let (vm, _) = run(assemble(
        "mov 10 to $100 mov $100 to a mov 101 to b mov a to $b mov $b to c \
         mov $100 to $102 mov b to x mov $x to $103 mov 104 to y mov $x to $y halt",
    ));
    assert_eq!(vm.memory_at(100), 10);
    assert_eq!(vm.register(4), 10);
    assert_eq!(vm.memory_at(101), 10);
    assert_eq!(vm.register(6), 10);
    assert_eq!(vm.memory_at(102), 10);
    assert_eq!(vm.memory_at(103), 10);
    assert_eq!(vm.memory_at(104), 10);
}

#[test]
fn every_variant_decodes_from_its_bytes() {
    let all = vec![
        Op::HALT,
        Op::NOOP,
        Op::MOVRN(1, 2),
        Op::MOVRR(1, 2),
        Op::MOVRA(1, 2),
        Op::MOVRX(1, 2),
        Op::MOVAN(1, 2),
        Op::MOVAR(1, 2),
        Op::MOVAA(1, 2),
        Op::MOVAX(1, 2),
        Op::MOVXN(1, 2),
        Op::MOVXR(1, 2),
        Op::MOVXA(1, 2),
        Op::MOVXX(1, 2),
        Op::ADDRN(1, 2),
        Op::ADDRR(1, 2),
        Op::SUBRN(1, 2),
        Op::SUBRR(1, 2),
        Op::MULRN(1, 2),
        Op::MULRR(1, 2),
        Op::DIVRN(1, 2),
        Op::DIVRR(1, 2),
        Op::ANDRR(1, 2),
        Op::ANDRN(1, 2),
        Op::XORRR(1, 2),
        Op::XORRN(1, 2),
        Op::ORRR(1, 2),
        Op::ORRN(1, 2),
        Op::SHR(3),
        Op::SHL(3),
        Op::PRINT(3),
        Op::JMP(9),
        Op::JMPIF(Case::EQ(1, 2), 9),
        Op::JMPIF(Case::NEQ(1, 2), 9),
        Op::JMPIF(Case::LSR(1, 2), 9),
        Op::JMPIF(Case::GRT(1, 2), 9),
        Op::JMPIF(Case::LSREQ(1, 2), 9),
        Op::JMPIF(Case::GRTEQ(1, 2), 9),
    ];
    for op in all {
        let mut code = Vec::new();
        to_bytes(vec![op], &mut code);
        assert_eq!(code.len(), op.get_size());
        let mut vm = Machine::new(code);
        vm.start();
        assert_eq!(vm.fetch(), Some(op));
        assert_eq!(vm.state(), State::Running { pc: op.get_size() });
    }
}

#[test]
fn every_variant_the_assembler_emits() {
    let src = "halt mov 1 to a mov b to a mov $2 to a mov $b to a mov 1 to $2 mov b to $2 \
               mov $1 to $2 mov $b to $2 mov 1 to $a mov b to $a mov $1 to $a mov $b to $a \
               add 1 to a add b to a sub 1 from a sub b from a and a with b and a with 1 \
               xor a with b xor a with 1 or a with b or a with 1 shr a shl a print a \
               label as l jmp to l jmp if a == b to l";
    let code = assemble(src);
    let mut vm = Machine::new(code.clone());
    vm.start();
    let mut seen = Vec::new();
    while let State::Running { pc } = vm.state() {
        if pc >= code.len() {
            break;
        }
        seen.push(vm.fetch().unwrap().get_opcode());
    }
    let expected = vec![
        0xFF, 0x0E, 0x1E, 0xAE, 0xBE, 0xE1, 0xE2, 0xE3, 0xE4, 0xEA, 0xEB, 0xEC, 0xED, 0x0A, 0x1A,
        0x0B, 0x1B, 0xC5, 0xC6, 0xD5, 0xD6, 0xE5, 0xE6, 0x2D, 0x3D, 0xA0, 0x0F, 0x1F,
    ];
    assert_eq!(seen, expected);
}

#[test]
fn unknown_opcode_is_skipped() {
    let (vm, _) = run(vec![0x77, 0x0E, 0x06, 0x05, 0xFF]);
    assert_eq!(exit_code(&vm), Some(Stop::Halted(5)));
}

#[test]
fn unknown_comparison_is_skipped() {
    let (vm, _) = run(vec![0x1F, 0x09, 0x00, 0x00, 0x00, 0x0E, 0x06, 0x01, 0xFF]);
    assert_eq!(exit_code(&vm), Some(Stop::Halted(1)));
}

#[test]
fn out_of_range_register_does_nothing() {
    let (vm, _) = run(vec![0x0E, 0x09, 0x05, 0xA0, 0x08, 0xFF]);
    assert_eq!(vm.registers(), &vec![0u8; 8]);
    assert_eq!(exit_code(&vm), Some(Stop::Halted(0)));
}

#[test]
fn mul_and_div_do_nothing() {
    let (vm, _) = run(vec![0x0E, 0x06, 0x05, 0x0C, 0x06, 0x02, 0x1D, 0x06, 0x06, 0xFF]);
    assert_eq!(exit_code(&vm), Some(Stop::Halted(5)));
}

#[test]
fn end_of_memory_stops_the_machine() {
    let (vm, _) = run(vec![]);
    assert_eq!(exit_code(&vm), Some(Stop::EndOfMemory));
    assert_eq!(vm.state(), State::Running { pc: 256 });
}

#[test]
fn truncated_instruction_at_the_end_of_memory() {
    let mut code = vec![0u8; 255];
    code.push(0x0E);
    let (vm, _) = run(code);
    assert_eq!(exit_code(&vm), Some(Stop::EndOfMemory));
    assert_eq!(vm.registers(), &vec![0u8; 8]);
}

#[test]
fn program_fills_memory() {
    let mut vm = Machine::new(vec![0xAB; 256]);
    assert_eq!(vm.state(), State::Null);
    assert_eq!(vm.finished(), None);
    assert!(!vm.is_running());
    vm.start();
    assert!(vm.is_running());
    assert_eq!(vm.memory_at(255), 0xAB);
    assert_eq!(vm.next_byte(), 0xAB);
    assert_eq!(vm.state(), State::Running { pc: 1 });
}

#[test]
fn step_reports_printed_bytes() {
    let mut vm = Machine::new(assemble("mov 72 to a print a halt"));
    vm.start();
    assert_eq!(vm.step(), None);
    assert_eq!(vm.step(), Some(72));
    assert_eq!(vm.finished(), None);
    assert_eq!(vm.step(), None);
    assert_eq!(vm.finished(), Some(Stop::Halted(0)));
}

#[test]
fn run_stops_after_the_step_budget() {
    let mut vm = Machine::new(assemble("label as l print a jmp to l"));
    vm.start();
    let out = vm.run(5);
    assert_eq!(out, vec![0, 0, 0]);
    assert_eq!(vm.finished(), None);
    assert_eq!(vm.state(), State::Running { pc: 2 });
}

#[test]
fn execute_jumps() {
    let mut vm = Machine::new(vec![]);
    vm.start();
    assert_eq!(vm.execute(Op::MOVRN(1, 3)), None);
    assert_eq!(vm.execute(Op::JMPIF(Case::GRT(1, 2), 40)), None);
    assert_eq!(vm.state(), State::Running { pc: 40 });
    assert_eq!(vm.execute(Op::JMPIF(Case::LSREQ(1, 2), 7)), None);
    assert_eq!(vm.state(), State::Running { pc: 40 });
    assert_eq!(vm.execute(Op::JMP(9)), None);
    assert_eq!(vm.state(), State::Running { pc: 9 });
    assert_eq!(vm.execute(Op::PRINT(1)), Some(3));
}
