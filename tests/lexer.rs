use asm8::lexer::Instruction::{Add, Halt, Label, Mov, Print, Shl};
use asm8::lexer::Register::{A, B, C, X};
use asm8::lexer::TokenKind::{
    As, Deref, Equal, Exclamation, From, Greater, If, Ins, Lesser, Number, Reg, Symbol, To, With,
};
use asm8::lexer::{Instruction, Lexer, Register, SplitWord, Token, TokenKind};

fn kinds(src: &str) -> Vec<TokenKind> {
    Lexer { input: src }.lex().into_iter().map(|t| t.kind).collect()
}

#[test]
fn test_lexer_1() {
    let lexer = Lexer {
        input: "mov a to $5  
                    add $32 to x",
    };
    assert_eq!(
        lexer
            .lex()
            .into_iter()
            .map(|t| { t.kind })
            .collect::<Vec<TokenKind>>(),
        vec![
            Ins(Mov),
            Reg(A),
            To,
            Deref,
            Number(5),
            Ins(Add),
            Deref,
            Number(32),
            To,
            Reg(X),
        ]
    );
}

#[test]
fn test_splitword_string() {
    let mut splitter = SplitWord::new("\"lol i am  so cool    and u r $+. ,[too ] \"    ");
    assert_eq!("\"", splitter.next().unwrap().0);
    assert_eq!("lol", splitter.next().unwrap().0);
    assert_eq!("i", splitter.next().unwrap().0);
    assert_eq!("am", splitter.next().unwrap().0);
    assert_eq!("so", splitter.next().unwrap().0);
    assert_eq!("cool", splitter.next().unwrap().0);
    assert_eq!("and", splitter.next().unwrap().0);
    assert_eq!("u", splitter.next().unwrap().0);
    assert_eq!("r", splitter.next().unwrap().0);
    assert_eq!("$", splitter.next().unwrap().0);
    assert_eq!("+", splitter.next().unwrap().0);
    assert_eq!(".", splitter.next().unwrap().0);
    assert_eq!(",", splitter.next().unwrap().0);
    assert_eq!("[", splitter.next().unwrap().0);
    assert_eq!("too", splitter.next().unwrap().0);
    assert_eq!("]", splitter.next().unwrap().0);
    assert_eq!("\"", splitter.next().unwrap().0);
}

#[test]
fn test_splitword_math_expression() {
    let mut splitter = SplitWord::new("(4+96* (72+6/ 3) )");
    assert_eq!("(", splitter.next().unwrap().0);
    assert_eq!("4", splitter.next().unwrap().0);
    assert_eq!("+", splitter.next().unwrap().0);
    assert_eq!("96", splitter.next().unwrap().0);
    assert_eq!("*", splitter.next().unwrap().0);
    assert_eq!("(", splitter.next().unwrap().0);
    assert_eq!("72", splitter.next().unwrap().0);
    assert_eq!("+", splitter.next().unwrap().0);
    assert_eq!("6", splitter.next().unwrap().0);
    assert_eq!("/", splitter.next().unwrap().0);
    assert_eq!("3", splitter.next().unwrap().0);
    assert_eq!(")", splitter.next().unwrap().0);
    assert_eq!(")", splitter.next().unwrap().0);
}

#[test]
fn splitword_ends_with_none_and_tracks_lines() {
    let mut splitter = SplitWord::new("  ab\n  c_d!  \n");
    let (w, line, range) = splitter.next().unwrap();
    assert_eq!((w, line, range), ("ab", 0, 2..4));
    let (w, line, range) = splitter.next().unwrap();
    assert_eq!((w, line, range), ("c_d", 1, 2..5));
    let (w, line, range) = splitter.next().unwrap();
    assert_eq!((w, line, range), ("!", 1, 5..6));
    assert!(splitter.next().is_none());
    assert!(splitter.next().is_none());
}

#[test]
fn splitword_empty_input() {
    let mut splitter = SplitWord::new("");
    assert!(splitter.next().is_none());
}

#[test]
fn lexer_positions() {
    let toks = Lexer { input: "halt\n  print a" }.lex();
    assert_eq!(
        toks,
        vec![
            Token { kind: Ins(Halt), line: 0, range: 0..4 },
            Token { kind: Ins(Print), line: 1, range: 2..7 },
            Token { kind: Reg(A), line: 1, range: 8..9 },
        ]
    );
}

#[test]
fn lexer_is_case_insensitive_but_keeps_symbol_case() {
    assert_eq!(
        kinds("MOV 1 To A\nLABEL As Top"),
        vec![
            Ins(Mov),
            Number(1),
            To,
            Reg(A),
            Ins(Label),
            As,
            Symbol("Top".to_string())
        ]
    );
}

#[test]
fn lexer_drops_comments_to_end_of_line() {
    assert_eq!(
        kinds("halt # print a\nprint b # x\n#\nshl c"),
        vec![Ins(Halt), Ins(Print), Reg(B), Ins(Shl), Reg(C)]
    );
}

#[test]
fn lexer_keywords_and_punctuation() {
    assert_eq!(
        kinds("$ to from as with if < > = ! + _x"),
        vec![
            Deref,
            To,
            From,
            As,
            With,
            If,
            Lesser,
            Greater,
            Equal,
            Exclamation,
            Symbol("+".to_string()),
            Symbol("_x".to_string())
        ]
    );
}

#[test]
fn lexer_numbers() {
    assert_eq!(
        kinds("0 007 2147483647 2147483648 12ab"),
        vec![
            Number(0),
            Number(7),
            Number(2147483647),
            Symbol("2147483648".to_string()),
            Symbol("12ab".to_string())
        ]
    );
}

#[test]
fn lexer_empty_and_blank_sources() {
    assert!(kinds("").is_empty());
    assert!(kinds("  \n\t \r\n").is_empty());
}

#[test]
fn mnemonic_and_register_words() {
    assert_eq!(Instruction::from_word("PrInT"), Some(Instruction::Print));
    assert_eq!(Instruction::from_word("prints"), None);
    assert_eq!(Register::from_word("Z"), Some(Register::Z));
    assert_eq!(Register::from_word("q"), None);
    assert_eq!(Register::N.index(), 0);
    assert_eq!(Register::X.index(), 1);
    assert_eq!(Register::Y.index(), 2);
    assert_eq!(Register::Z.index(), 3);
    assert_eq!(Register::A.index(), 4);
    assert_eq!(Register::B.index(), 5);
    assert_eq!(Register::C.index(), 6);
    assert_eq!(Register::I.index(), 7);
}

#[test]
fn conversions() {
    assert_eq!(Register::C.index(), 6);
    assert_eq!("HALT".parse::<Instruction>(), Ok(Instruction::Halt));
    assert_eq!("halts".parse::<Instruction>(), Err(()));
    assert_eq!("i".parse::<Register>(), Ok(Register::I));
    assert_eq!("ii".parse::<Register>(), Err(()));
    assert_eq!(Reg(Register::Y).register_index(), Some(2));
    assert_eq!(Number(2).register_index(), None);
}

#[test]
fn tokens_clone() {
    let toks = Lexer { input: "jmp to Top" }.lex();
    let copy: Vec<Token> = toks.iter().map(|t| t.clone()).collect();
    assert_eq!(copy, toks);
    assert_eq!(copy[2].kind, Symbol("Top".to_string()));
    assert_eq!(copy[2].range, 7..10);
}
