//! The lexer: splits source text into words with their positions, drops
//! comments, and classifies each word as a keyword, a mnemonic, a register,
//! a number or a plain symbol.
//!
//! Positions are counted in characters: a token's line is the number of
//! newlines before it, its range the columns it covers on that line.
use std::ops::Range;
use vstd::prelude::*;

verus! {

/// What a token is.
#[derive(PartialEq, Eq, Debug)]
pub enum TokenKind {
    Deref,
    To,
    From,
    As,
    With,
    If,
    Number(i32),
    Ins(Instruction),
    Reg(Register),
    Lesser,
    Greater,
    Equal,
    Exclamation,
    Symbol(String),
}

/// A token kind with its text as a sequence of characters.
pub enum Lexeme {
    Deref,
    To,
    From,
    As,
    With,
    If,
    Number(i32),
    Ins(Instruction),
    Reg(Register),
    Lesser,
    Greater,
    Equal,
    Exclamation,
    Symbol(Seq<char>),
}

impl View for TokenKind {
    type V = Lexeme;

    open spec fn view(&self) -> Lexeme {
        match self {
            TokenKind::Deref => Lexeme::Deref,
            TokenKind::To => Lexeme::To,
            TokenKind::From => Lexeme::From,
            TokenKind::As => Lexeme::As,
            TokenKind::With => Lexeme::With,
            TokenKind::If => Lexeme::If,
            TokenKind::Number(n) => Lexeme::Number(*n),
            TokenKind::Ins(i) => Lexeme::Ins(*i),
            TokenKind::Reg(r) => Lexeme::Reg(*r),
            TokenKind::Lesser => Lexeme::Lesser,
            TokenKind::Greater => Lexeme::Greater,
            TokenKind::Equal => Lexeme::Equal,
            TokenKind::Exclamation => Lexeme::Exclamation,
            TokenKind::Symbol(s) => Lexeme::Symbol(s@),
        }
    }
}

/// An instruction mnemonic.
#[derive(PartialEq, Eq, Structural, Debug, Clone, Copy)]
pub enum Instruction {
    Mov,
    Add,
    Sub,
    Shl,
    Shr,
    Jmp,
    Print,
    And,
    Xor,
    Or,
    Label,
    Halt,
}

/// A register name.
#[derive(PartialEq, Eq, Structural, Debug, Clone, Copy)]
pub enum Register {
    A,
    B,
    C,
    X,
    Y,
    Z,
    I,
    N,
}

/// A classified word, the line it stands on and the columns it covers.
#[derive(PartialEq, Eq, Debug)]
pub struct Token {
    pub kind: TokenKind,
    pub line: usize,
    pub range: Range<usize>,
}

impl Clone for TokenKind {
    fn clone(&self) -> (k: TokenKind)
        ensures
            k == *self,
    {
        match self {
            TokenKind::Deref => TokenKind::Deref,
            TokenKind::To => TokenKind::To,
            TokenKind::From => TokenKind::From,
            TokenKind::As => TokenKind::As,
            TokenKind::With => TokenKind::With,
            TokenKind::If => TokenKind::If,
            TokenKind::Number(n) => TokenKind::Number(*n),
            TokenKind::Ins(i) => TokenKind::Ins(*i),
            TokenKind::Reg(r) => TokenKind::Reg(*r),
            TokenKind::Lesser => TokenKind::Lesser,
            TokenKind::Greater => TokenKind::Greater,
            TokenKind::Equal => TokenKind::Equal,
            TokenKind::Exclamation => TokenKind::Exclamation,
            TokenKind::Symbol(s) => TokenKind::Symbol(s.clone()),
        }
    }
}

impl Clone for Token {
    fn clone(&self) -> (t: Token)
        ensures
            t.kind == self.kind,
            t.line == self.line,
            t.range == self.range,
    {
        Token {
            kind: self.kind.clone(),
            line: self.line,
            range: Range { start: self.range.start, end: self.range.end },
        }
    }
}

/// The ASCII whitespace characters: space, tab, line feed, form feed, carriage return.
pub open spec fn is_space(c: char) -> bool {
    c == ' ' || c == '\t' || c == '\n' || c == '\x0C' || c == '\r'
}

/// ASCII punctuation other than the underscore: each one is a token of its own.
pub open spec fn is_punct(c: char) -> bool {
    c != '_' && (('!' <= c && c <= '/') || (':' <= c && c <= '@') || ('[' <= c && c <= '`') || (
    '{' <= c && c <= '~'))
}

/// A character that belongs to a word.
pub open spec fn is_word_char(c: char) -> bool {
    !is_space(c) && !is_punct(c)
}

/// ASCII lower case of a character; any other character is kept.
pub open spec fn lower(c: char) -> char {
    if 'A' <= c && c <= 'Z' {
        ((c as u32) + 32) as char
    } else {
        c
    }
}

pub open spec fn lowered(w: Seq<char>) -> Seq<char> {
    w.map_values(|c: char| lower(c))
}

/// The first position at or after `p` that does not hold a word character.
pub open spec fn word_end(s: Seq<char>, p: int) -> int
    decreases s.len() - p,
{
    if 0 <= p < s.len() && is_word_char(s[p]) {
        word_end(s, p + 1)
    } else {
        p
    }
}

pub proof fn lemma_word_end_after(s: Seq<char>, p: int)
    ensures
        word_end(s, p) >= p,
        0 <= p ==> word_end(s, p) <= s.len() || word_end(s, p) == p,
    decreases s.len() - p,
{
    if 0 <= p < s.len() && is_word_char(s[p]) {
        lemma_word_end_after(s, p + 1);
    }
}

/// The spans `(start, end)` of the words of `s` from position `p` on:
/// whitespace separates words, and each punctuation character is a word of
/// its own.
pub open spec fn spans_from(s: Seq<char>, p: int) -> Seq<(int, int)>
    decreases s.len() - p,
{
    if p < 0 || p >= s.len() {
        seq![]
    } else if is_space(s[p]) {
        spans_from(s, p + 1)
    } else if is_punct(s[p]) {
        seq![(p, p + 1)] + spans_from(s, p + 1)
    } else {
        proof {
            lemma_word_end_after(s, p + 1);
        }
        seq![(p, word_end(s, p + 1))] + spans_from(s, word_end(s, p + 1))
    }
}

/// The number of newlines before position `p`.
pub open spec fn line_of(s: Seq<char>, p: int) -> int
    decreases p,
{
    if p <= 0 || p > s.len() {
        0
    } else {
        line_of(s, p - 1) + if s[p - 1] == '\n' {
            1int
        } else {
            0int
        }
    }
}

/// The position where the line holding position `p` starts.
pub open spec fn line_start(s: Seq<char>, p: int) -> int
    decreases p,
{
    if p <= 0 || p > s.len() {
        0
    } else if s[p - 1] == '\n' {
        p
    } else {
        line_start(s, p - 1)
    }
}

pub proof fn lemma_line_bounds(s: Seq<char>, p: int)
    ensures
        0 <= line_of(s, p),
        0 <= p ==> line_of(s, p) <= p,
        0 <= line_start(s, p),
        0 <= p ==> line_start(s, p) <= p,
    decreases p,
{
    if 0 < p <= s.len() {
        lemma_line_bounds(s, p - 1);
    }
}

/// Whether position `p` follows a `#` on its own line (or holds one).
pub open spec fn commented(s: Seq<char>, p: int) -> bool {
    exists|k: int| line_start(s, p) <= k <= p && 0 <= k < s.len() && s[k] == '#'
}

/// The spans of the words that the lexer keeps: those outside comments.
pub open spec fn kept_spans(s: Seq<char>) -> Seq<(int, int)> {
    spans_from(s, 0).filter(|sp: (int, int)| !commented(s, sp.0))
}

/// The keyword that a lower-case word is, if any.
pub open spec fn keyword_named(l: Seq<char>) -> Option<Lexeme> {
    if l == seq!['$'] {
        Some(Lexeme::Deref)
    } else if l == seq!['t', 'o'] {
        Some(Lexeme::To)
    } else if l == seq!['a', 's'] {
        Some(Lexeme::As)
    } else if l == seq!['f', 'r', 'o', 'm'] {
        Some(Lexeme::From)
    } else if l == seq!['w', 'i', 't', 'h'] {
        Some(Lexeme::With)
    } else if l == seq!['i', 'f'] {
        Some(Lexeme::If)
    } else if l == seq!['<'] {
        Some(Lexeme::Lesser)
    } else if l == seq!['>'] {
        Some(Lexeme::Greater)
    } else if l == seq!['='] {
        Some(Lexeme::Equal)
    } else if l == seq!['!'] {
        Some(Lexeme::Exclamation)
    } else {
        None
    }
}

/// The mnemonic that a lower-case word is, if any.
pub open spec fn instruction_named(l: Seq<char>) -> Option<Instruction> {
    if l == seq!['m', 'o', 'v'] {
        Some(Instruction::Mov)
    } else if l == seq!['a', 'd', 'd'] {
        Some(Instruction::Add)
    } else if l == seq!['s', 'u', 'b'] {
        Some(Instruction::Sub)
    } else if l == seq!['s', 'h', 'l'] {
        Some(Instruction::Shl)
    } else if l == seq!['s', 'h', 'r'] {
        Some(Instruction::Shr)
    } else if l == seq!['j', 'm', 'p'] {
        Some(Instruction::Jmp)
    } else if l == seq!['p', 'r', 'i', 'n', 't'] {
        Some(Instruction::Print)
    } else if l == seq!['a', 'n', 'd'] {
        Some(Instruction::And)
    } else if l == seq!['x', 'o', 'r'] {
        Some(Instruction::Xor)
    } else if l == seq!['o', 'r'] {
        Some(Instruction::Or)
    } else if l == seq!['l', 'a', 'b', 'e', 'l'] {
        Some(Instruction::Label)
    } else if l == seq!['h', 'a', 'l', 't'] {
        Some(Instruction::Halt)
    } else {
        None
    }
}

/// The register that a lower-case word names, if any.
pub open spec fn register_named(l: Seq<char>) -> Option<Register> {
    if l == seq!['a'] {
        Some(Register::A)
    } else if l == seq!['b'] {
        Some(Register::B)
    } else if l == seq!['c'] {
        Some(Register::C)
    } else if l == seq!['x'] {
        Some(Register::X)
    } else if l == seq!['y'] {
        Some(Register::Y)
    } else if l == seq!['z'] {
        Some(Register::Z)
    } else if l == seq!['i'] {
        Some(Register::I)
    } else if l == seq!['n'] {
        Some(Register::N)
    } else {
        None
    }
}

pub open spec fn is_digit(c: char) -> bool {
    '0' <= c && c <= '9'
}

/// The value of a string of decimal digits.
pub open spec fn digits_value(w: Seq<char>) -> int
    decreases w.len(),
{
    if w.len() == 0 {
        0
    } else {
        digits_value(w.drop_last()) * 10 + (w.last() as int - '0' as int)
    }
}

/// The number a word spells: one or more decimal digits whose value fits in an `i32`.
pub open spec fn number_named(w: Seq<char>) -> Option<i32> {
    if w.len() > 0 && (forall|i: int| 0 <= i < w.len() ==> is_digit(#[trigger] w[i]))
        && digits_value(w) <= i32::MAX {
        Some(digits_value(w) as i32)
    } else {
        None
    }
}

/// What a word is, tried in order: keyword, mnemonic, register, number, symbol.
pub open spec fn lexeme_of(w: Seq<char>) -> Lexeme {
    match keyword_named(lowered(w)) {
        Some(k) => k,
        None => match instruction_named(lowered(w)) {
            Some(i) => Lexeme::Ins(i),
            None => match register_named(lowered(w)) {
                Some(r) => Lexeme::Reg(r),
                None => match number_named(w) {
                    Some(n) => Lexeme::Number(n),
                    None => Lexeme::Symbol(w),
                },
            },
        },
    }
}

/// Token `t` is the word of `s` at span `sp`.
pub open spec fn token_at(t: Token, s: Seq<char>, sp: (int, int)) -> bool {
    &&& t.kind@ == lexeme_of(s.subrange(sp.0, sp.1))
    &&& t.line == line_of(s, sp.0)
    &&& t.range.start == sp.0 - line_start(s, sp.0)
    &&& t.range.end == sp.1 - line_start(s, sp.0)
}

/// `toks` are the tokens of the source `s`, one for each word kept.
pub open spec fn lexes_to(s: Seq<char>, toks: Seq<Token>) -> bool {
    &&& toks.len() == kept_spans(s).len()
    &&& forall|i: int| 0 <= i < toks.len() ==> token_at(#[trigger] toks[i], s, kept_spans(s)[i])
}

/// The kinds of the tokens of `s`.
pub open spec fn lexemes(s: Seq<char>) -> Seq<Lexeme> {
    kept_spans(s).map_values(|sp: (int, int)| lexeme_of(s.subrange(sp.0, sp.1)))
}

/// The kinds of a sequence of tokens.
pub open spec fn kinds(toks: Seq<Token>) -> Seq<Lexeme> {
    toks.map_values(|t: Token| t.kind@)
}

/// The kinds of the tokens of a source are its lexemes, whatever strings
/// the tokens hold.
pub proof fn lemma_lexes_to_kinds(s: Seq<char>, toks: Seq<Token>)
    requires
        lexes_to(s, toks),
    ensures
        kinds(toks) == lexemes(s),
{
    assert(kinds(toks) =~= lexemes(s));
}

fn is_space_char(c: char) -> (r: bool)
    ensures
        r == is_space(c),
{
    c == ' ' || c == '\t' || c == '\n' || c == '\x0C' || c == '\r'
}

fn is_punct_char(c: char) -> (r: bool)
    ensures
        r == is_punct(c),
{
    c != '_' && (('!' <= c && c <= '/') || (':' <= c && c <= '@') || ('[' <= c && c <= '`') || (
    '{' <= c && c <= '~'))
}

fn lower_char(c: char) -> (r: char)
    ensures
        r == lower(c),
{
    if 'A' <= c && c <= 'Z' {
        ((c as u8) + 32) as char
    } else {
        c
    }
}

/// The characters of a string, in order.
fn chars_of(s: &str) -> (v: Vec<char>)
    ensures
        v@ == s@,
{
    let mut v: Vec<char> = Vec::new();
    for c in it: s.chars()
        invariant
            v@ == it.seq().take(it.index() as int),
    {
        v.push(c);
    }
    v
}

/// The lower case of the characters `s[a..b]`.
fn lowered_range(s: &Vec<char>, a: usize, b: usize) -> (l: Vec<char>)
    requires
        a <= b <= s@.len(),
    ensures
        l@ == lowered(s@.subrange(a as int, b as int)),
{
    let mut l: Vec<char> = Vec::new();
    let mut i: usize = a;
    while i < b
        invariant
            a <= i <= b <= s@.len(),
            l@ == lowered(s@.subrange(a as int, i as int)),
        decreases b - i,
    {
        l.push(lower_char(s[i]));
        i += 1;
        assert(l@ =~= lowered(s@.subrange(a as int, i as int)));
    }
    l
}

proof fn lemma_one_char(c: char)
    ensures
        [c]@ == seq![c],
{
    assert([c]@ =~= seq![c]);
}

fn same_chars(a: &Vec<char>, b: &[char]) -> (r: bool)
    ensures
        r == (a@ == b@),
{
    if a.len() != b.len() {
        return false;
    }
    let mut i: usize = 0;
    while i < a.len()
        invariant
            i <= a.len(),
            a.len() == b@.len(),
            forall|j: int| 0 <= j < i ==> a@[j] == b@[j],
        decreases a.len() - i,
    {
        if a[i] != b[i] {
            return false;
        }
        i += 1;
    }
    assert(a@ =~= b@);
    true
}

impl Instruction {
    /// The mnemonic that the lower-case word `l` is.
    pub fn named(l: &Vec<char>) -> (r: Option<Instruction>)
        ensures
            r == instruction_named(l@),
    {
        if same_chars(l, &['m', 'o', 'v']) {
            Some(Instruction::Mov)
        } else if same_chars(l, &['a', 'd', 'd']) {
            Some(Instruction::Add)
        } else if same_chars(l, &['s', 'u', 'b']) {
            Some(Instruction::Sub)
        } else if same_chars(l, &['s', 'h', 'l']) {
            Some(Instruction::Shl)
        } else if same_chars(l, &['s', 'h', 'r']) {
            Some(Instruction::Shr)
        } else if same_chars(l, &['j', 'm', 'p']) {
            Some(Instruction::Jmp)
        } else if same_chars(l, &['p', 'r', 'i', 'n', 't']) {
            Some(Instruction::Print)
        } else if same_chars(l, &['a', 'n', 'd']) {
            Some(Instruction::And)
        } else if same_chars(l, &['x', 'o', 'r']) {
            Some(Instruction::Xor)
        } else if same_chars(l, &['o', 'r']) {
            Some(Instruction::Or)
        } else if same_chars(l, &['l', 'a', 'b', 'e', 'l']) {
            Some(Instruction::Label)
        } else if same_chars(l, &['h', 'a', 'l', 't']) {
            Some(Instruction::Halt)
        } else {
            None
        }
    }

    /// The mnemonic that `s` spells, in any case.
    pub fn from_word(s: &str) -> (r: Option<Instruction>)
        ensures
            r == instruction_named(lowered(s@)),
    {
        let w = chars_of(s);
        let l = lowered_range(&w, 0, w.len());
        assert(w@.subrange(0, w@.len() as int) =~= w@);
        Instruction::named(&l)
    }
}

impl Register {
    /// The register that the lower-case word `l` names.
    pub fn named(l: &Vec<char>) -> (r: Option<Register>)
        ensures
            r == register_named(l@),
    {
        proof {
            lemma_one_char('a');
            lemma_one_char('b');
            lemma_one_char('c');
            lemma_one_char('x');
            lemma_one_char('y');
            lemma_one_char('z');
            lemma_one_char('i');
            lemma_one_char('n');
        }
        if same_chars(l, &['a']) {
            Some(Register::A)
        } else if same_chars(l, &['b']) {
            Some(Register::B)
        } else if same_chars(l, &['c']) {
            Some(Register::C)
        } else if same_chars(l, &['x']) {
            Some(Register::X)
        } else if same_chars(l, &['y']) {
            Some(Register::Y)
        } else if same_chars(l, &['z']) {
            Some(Register::Z)
        } else if same_chars(l, &['i']) {
            Some(Register::I)
        } else if same_chars(l, &['n']) {
            Some(Register::N)
        } else {
            None
        }
    }

    /// The register that `s` names, in any case.
    pub fn from_word(s: &str) -> (r: Option<Register>)
        ensures
            r == register_named(lowered(s@)),
    {
        let w = chars_of(s);
        let l = lowered_range(&w, 0, w.len());
        assert(w@.subrange(0, w@.len() as int) =~= w@);
        Register::named(&l)
    }

    /// The register's index in the register file.
    pub open spec fn spec_index(self) -> u8 {
        match self {
            Register::N => 0,
            Register::X => 1,
            Register::Y => 2,
            Register::Z => 3,
            Register::A => 4,
            Register::B => 5,
            Register::C => 6,
            Register::I => 7,
        }
    }

    #[verifier::when_used_as_spec(spec_index)]
    pub fn index(self) -> (r: u8)
        ensures
            r == self.spec_index(),
            r < 8,
    {
        match self {
            Register::N => 0,
            Register::X => 1,
            Register::Y => 2,
            Register::Z => 3,
            Register::A => 4,
            Register::B => 5,
            Register::C => 6,
            Register::I => 7,
        }
    }
}

proof fn lemma_digits_prefix(w: Seq<char>, k: int)
    requires
        0 <= k <= w.len(),
        forall|i: int| 0 <= i < w.len() ==> is_digit(#[trigger] w[i]),
    ensures
        0 <= digits_value(w.take(k)) <= digits_value(w),
    decreases w.len(),
{
    if k < w.len() {
        lemma_digits_prefix(w.drop_last(), k);
        assert(w.drop_last().take(k) =~= w.take(k));
    } else {
        assert(w.take(k) =~= w);
        if w.len() > 0 {
            lemma_digits_prefix(w.drop_last(), k - 1);
            assert(w.drop_last().take(k - 1) =~= w.drop_last());
        }
    }
}

/// The number that `s[a..b]` spells, as `number_named` reads it.
fn number_in(s: &Vec<char>, a: usize, b: usize) -> (r: Option<i32>)
    requires
        a < b <= s@.len(),
    ensures
        r == number_named(s@.subrange(a as int, b as int)),
{
    let ghost w = s@.subrange(a as int, b as int);
    let mut value: u32 = 0;
    let mut too_big = false;
    let mut i: usize = a;
    while i < b
        invariant
            a <= i <= b <= s@.len(),
            w == s@.subrange(a as int, b as int),
            forall|j: int| 0 <= j < i - a ==> is_digit(#[trigger] w[j]),
            !too_big ==> value == digits_value(w.take(i - a)),
            !too_big ==> value <= i32::MAX,
            too_big ==> digits_value(w.take(i - a)) > i32::MAX,
        decreases b - i,
    {
        let c = s[i];
        if !('0' <= c && c <= '9') {
            assert(!is_digit(w[i - a]));
            return None;
        }
        let ghost before = w.take(i - a);
        let ghost after = w.take(i + 1 - a);
        assert(after.drop_last() =~= before);
        if !too_big {
            let d = (c as u32) - ('0' as u32);
            if value > (i32::MAX as u32 - d) / 10 {
                too_big = true;
            } else {
                value = value * 10 + d;
            }
        } else {
            proof {
                assert(forall|j: int| 0 <= j < after.len() ==> is_digit(#[trigger] after[j]));
                lemma_digits_prefix(after, i - a);
                assert(after.take(i - a) =~= before);
            }
        }
        i += 1;
    }
    assert(w.take(b - a) =~= w);
    if too_big {
        None
    } else {
        Some(value as i32)
    }
}

/// The token kind of the word `s[a..b]`, whose text is `text`.
fn classify(s: &Vec<char>, a: usize, b: usize, text: &str) -> (k: TokenKind)
    requires
        a < b <= s@.len(),
        text@ == s@.subrange(a as int, b as int),
    ensures
        k@ == lexeme_of(s@.subrange(a as int, b as int)),
{
    let l = lowered_range(s, a, b);
    proof {
        lemma_one_char('$');
        lemma_one_char('<');
        lemma_one_char('>');
        lemma_one_char('=');
        lemma_one_char('!');
    }
    if same_chars(&l, &['$']) {
        TokenKind::Deref
    } else if same_chars(&l, &['t', 'o']) {
        TokenKind::To
    } else if same_chars(&l, &['a', 's']) {
        TokenKind::As
    } else if same_chars(&l, &['f', 'r', 'o', 'm']) {
        TokenKind::From
    } else if same_chars(&l, &['w', 'i', 't', 'h']) {
        TokenKind::With
    } else if same_chars(&l, &['i', 'f']) {
        TokenKind::If
    } else if same_chars(&l, &['<']) {
        TokenKind::Lesser
    } else if same_chars(&l, &['>']) {
        TokenKind::Greater
    } else if same_chars(&l, &['=']) {
        TokenKind::Equal
    } else if same_chars(&l, &['!']) {
        TokenKind::Exclamation
    } else if let Some(ins) = Instruction::named(&l) {
        TokenKind::Ins(ins)
    } else if let Some(reg) = Register::named(&l) {
        TokenKind::Reg(reg)
    } else if let Some(num) = number_in(s, a, b) {
        TokenKind::Number(num)
    } else {
        TokenKind::Symbol(String::from_str(text))
    }
}

/// Splits a source text into words, left to right, keeping track of lines.
pub struct SplitWord<'a> {
    input: &'a str,
    chars: Vec<char>,
    pos: usize,
    line: usize,
    line_pos: usize,
}

impl<'a> SplitWord<'a> {
    /// The text being split.
    pub closed spec fn text(&self) -> Seq<char> {
        self.chars@
    }

    /// The position where the next word is looked for.
    pub closed spec fn position(&self) -> int {
        self.pos as int
    }

    /// The spans of the words that are still to come.
    pub open spec fn remaining(&self) -> Seq<(int, int)> {
        spans_from(self.text(), self.position())
    }

    pub closed spec fn wf(&self) -> bool {
        &&& self.chars@ == self.input@
        &&& self.pos <= self.chars@.len()
        &&& self.line == line_of(self.chars@, self.pos as int)
        &&& self.line_pos == line_start(self.chars@, self.pos as int)
    }

    pub fn new(input: &'a str) -> (r: Self)
        ensures
            r.wf(),
            r.text() == input@,
            r.position() == 0,
    {
        SplitWord { input, chars: chars_of(input), pos: 0, line: 0, line_pos: 0 }
    }

    /// Finds the span of the next word; `None` when only whitespace is left.
    fn next_span(&mut self) -> (r: Option<(usize, usize)>)
        requires
            old(self).wf(),
        ensures
            final(self).wf(),
            final(self).input == old(self).input,
            final(self).text() == old(self).text(),
            old(self).position() <= final(self).position(),
            r is None ==> old(self).remaining() == Seq::<(int, int)>::empty(),
            r is None ==> final(self).remaining() == Seq::<(int, int)>::empty(),
            r is None ==> forall|j: int|
                old(self).position() <= j < final(self).position() ==> is_space(
                    #[trigger] old(self).text()[j],
                ),
            r matches Some((a, b)) ==> {
                let s = old(self).text();
                &&& old(self).position() <= a < b <= s.len()
                &&& final(self).position() == b
                &&& old(self).remaining() == seq![(a as int, b as int)] + final(self).remaining()
                &&& forall|j: int| old(self).position() <= j < a ==> is_space(#[trigger] s[j])
                &&& (s[a as int] == '#' ==> b == a + 1)
                &&& forall|j: int| a < j < b ==> is_word_char(#[trigger] s[j])
                &&& line_of(s, a as int) == line_of(s, b as int)
                &&& line_start(s, a as int) == line_start(s, b as int)
            },
    {
        let ghost s = self.chars@;
        let ghost p0 = self.pos as int;
        let n = self.chars.len();
        while self.pos < n && is_space_char(self.chars[self.pos])
            invariant
                self.wf(),
                self.chars@ == s,
                self.input == old(self).input,
                n == s.len(),
                p0 <= self.pos,
                spans_from(s, p0) == spans_from(s, self.pos as int),
                forall|j: int| p0 <= j < self.pos ==> is_space(#[trigger] s[j]),
            decreases n - self.pos,
        {
            proof {
                lemma_line_bounds(s, self.pos as int);
            }
            if self.chars[self.pos] == '\n' {
                self.line = self.line + 1;
                self.line_pos = self.pos + 1;
            }
            self.pos = self.pos + 1;
        }
        if self.pos >= n {
            return None;
        }
        let a = self.pos;
        if is_punct_char(self.chars[a]) {
            self.pos = a + 1;
            return Some((a, a + 1));
        }
        while self.pos < n && !is_space_char(self.chars[self.pos]) && !is_punct_char(
            self.chars[self.pos],
        )
            invariant
                self.wf(),
                self.chars@ == s,
                self.input == old(self).input,
                n == s.len(),
                a <= self.pos,
                a < n,
                is_word_char(s[a as int]),
                word_end(s, a + 1) == word_end(s, self.pos as int) || self.pos == a,
                line_of(s, a as int) == self.line,
                line_start(s, a as int) == self.line_pos,
                forall|j: int| a <= j < self.pos ==> is_word_char(#[trigger] s[j]),
            decreases n - self.pos,
        {
            self.pos = self.pos + 1;
        }
        Some((a, self.pos))
    }

    /// The next word, the line it stands on and the columns it covers.
    pub fn next(&mut self) -> (r: Option<(&'a str, usize, Range<usize>)>)
        requires
            old(self).wf(),
        ensures
            final(self).wf(),
            final(self).text() == old(self).text(),
            r is None ==> old(self).remaining() == Seq::<(int, int)>::empty(),
            r is None ==> final(self).remaining() == Seq::<(int, int)>::empty(),
            r matches Some((w, line, range)) ==> {
                let s = old(self).text();
                let sp = old(self).remaining()[0];
                &&& old(self).remaining().len() > 0
                &&& final(self).remaining() == old(self).remaining().drop_first()
                &&& w@ == s.subrange(sp.0, sp.1)
                &&& line == line_of(s, sp.0)
                &&& range.start == sp.0 - line_start(s, sp.0)
                &&& range.end == sp.1 - line_start(s, sp.0)
            },
    {
        match self.next_span() {
            None => None,
            Some((a, b)) => {
                proof {
                    lemma_line_bounds(self.chars@, a as int);
                }
                let word = self.input.substring_char(a, b);
                let range = Range { start: a - self.line_pos, end: b - self.line_pos };
                Some((word, self.line, range))
            },
        }
    }
}

/// Turns a source text into tokens.
pub struct Lexer<'a> {
    pub input: &'a str,
}

impl Lexer<'_> {
    /// The tokens of the source, one for each word outside comments, in order.
    pub fn lex(&self) -> (r: Vec<Token>)
        ensures
            lexes_to(self.input@, r@),
    {
        let ghost s = self.input@;
        let mut split = SplitWord::new(self.input);
        let mut out: Vec<Token> = Vec::new();
        let mut last_hash: Option<usize> = None;
        let ghost pred = |sp: (int, int)| !commented(s, sp.0);
        let ghost mut done: Seq<(int, int)> = seq![];
        loop
            invariant
                split.wf(),
                split.text() == s,
                s == self.input@,
                kept_spans(s) == done + split.remaining().filter(pred),
                pred == (|sp: (int, int)| !commented(s, sp.0)),
                out@.len() == done.len(),
                forall|i: int| 0 <= i < out@.len() ==> token_at(#[trigger] out@[i], s, done[i]),
                last_hash matches Some(h) ==> {
                    &&& h < split.position()
                    &&& s[h as int] == '#'
                    &&& forall|j: int| h < j < split.position() ==> !(#[trigger] s[j] == '#')
                },
                last_hash is None ==> forall|j: int|
                    0 <= j < split.position() ==> !(#[trigger] s[j] == '#'),
            ensures
                kept_spans(s) == done,
            decreases s.len() - split.position(),
        {
            let ghost old_split_pos = split.position();
            let ghost rem = split.remaining();
            match split.next_span() {
                None => {
                    proof {
                        reveal_with_fuel(Seq::filter, 1);
                        assert(split.remaining().filter(pred) =~= seq![]);
                        assert(done + split.remaining().filter(pred) =~= done);
                    }
                    break;
                },
                Some((a, b)) => {
                    proof {
                        lemma_line_bounds(s, a as int);
                    }
                    let is_hash = split.chars[a] == '#';
                    let commented_here = is_hash || match last_hash {
                        Some(h) => h >= split.line_pos,
                        None => false,
                    };
                    proof {
                        assert(rem == seq![(a as int, b as int)] + split.remaining());
                        Seq::filter_distributes_over_add(
                            seq![(a as int, b as int)],
                            split.remaining(),
                            pred,
                        );
                        reveal_with_fuel(Seq::filter, 2);
                        if is_hash {
                            assert(commented(s, a as int));
                        } else if commented_here {
                            let h = last_hash.unwrap();
                            assert(s[h as int] == '#');
                            assert(commented(s, a as int));
                        } else {
                            assert forall|k: int|
                                line_start(s, a as int) <= k <= a && 0 <= k < s.len() implies !(
                            s[k] == '#') by {
                                if k >= old_split_pos {
                                    assert(is_space(s[k]) || k == a);
                                }
                            }
                            assert(!commented(s, a as int));
                        }
                    }
                    if is_hash {
                        last_hash = Some(a);
                    }
                    if !commented_here {
                        let word = self.input.substring_char(a, b);
                        let kind = classify(&split.chars, a, b, word);
                        let tok = Token {
                            kind,
                            line: split.line,
                            range: Range { start: a - split.line_pos, end: b - split.line_pos },
                        };
                        out.push(tok);
                        proof {
                            done = done.push((a as int, b as int));
                        }
                    }
                },
            }
        }
        out
    }
}

impl std::str::FromStr for Instruction {
    type Err = ();

    fn from_str(s: &str) -> (r: Result<Self, Self::Err>)
        ensures
            r == (match instruction_named(lowered(s@)) {
                Some(i) => Ok::<Instruction, ()>(i),
                None => Err::<Instruction, ()>(()),
            }),
    {
        match Instruction::from_word(s) {
            Some(i) => Ok(i),
            None => Err(()),
        }
    }
}

impl std::str::FromStr for Register {
    type Err = ();

    fn from_str(s: &str) -> (r: Result<Self, Self::Err>)
        ensures
            r == (match register_named(lowered(s@)) {
                Some(x) => Ok::<Register, ()>(x),
                None => Err::<Register, ()>(()),
            }),
    {
        match Register::from_word(s) {
            Some(r) => Ok(r),
            None => Err(()),
        }
    }
}

impl TokenKind {
    /// The index of the register this token names, if it names one.
    pub fn register_index(&self) -> (r: Option<u8>)
        ensures
            r == match self@ {
                Lexeme::Reg(reg) => Some(reg.spec_index()),
                _ => None::<u8>,
            },
    {
        match self {
            TokenKind::Reg(r) => Some(r.index()),
            _ => None,
        }
    }
}

} // verus!
