//! Tokenizer for the SQL subset: characters to tokens.
use vstd::prelude::*;

verus! {

/// Reserved words (matched without regard to ASCII case).
#[derive(Debug, Clone, Copy, PartialEq, Eq, Structural)]
pub enum Keyword {
    Select,
    From,
    Where,
    Group,
    By,
    Limit,
    As,
    And,
    Or,
    Not,
    Null,
    True,
    False,
}

#[derive(Debug)]
pub enum Token {
    Keyword(Keyword),
    /// A plain identifier.
    Ident(String),
    /// `name.name`, a table-qualified column reference.
    QualIdent(String),
    /// The digits of an integer literal.
    Int(String),
    /// The text of a decimal literal `digits.digits`.
    Float(String),
    /// The contents of a quoted string, without the quotes; `''` inside
    /// the quotes stands for one quote.
    Str(String),
    Comma,
    LParen,
    RParen,
    Star,
    Plus,
    Minus,
    Slash,
    Eq,
    Ne,
    Lt,
    Le,
    Gt,
    Ge,
    Semicolon,
}

pub enum SpecToken {
    Keyword(Keyword),
    Ident(Seq<char>),
    QualIdent(Seq<char>),
    Int(Seq<char>),
    Float(Seq<char>),
    Str(Seq<char>),
    Comma,
    LParen,
    RParen,
    Star,
    Plus,
    Minus,
    Slash,
    Eq,
    Ne,
    Lt,
    Le,
    Gt,
    Ge,
    Semicolon,
}

impl View for Token {
    type V = SpecToken;

    open spec fn view(&self) -> SpecToken {
        match self {
            Token::Keyword(k) => SpecToken::Keyword(*k),
            Token::Ident(s) => SpecToken::Ident(s@),
            Token::QualIdent(s) => SpecToken::QualIdent(s@),
            Token::Int(s) => SpecToken::Int(s@),
            Token::Float(s) => SpecToken::Float(s@),
            Token::Str(s) => SpecToken::Str(s@),
            Token::Comma => SpecToken::Comma,
            Token::LParen => SpecToken::LParen,
            Token::RParen => SpecToken::RParen,
            Token::Star => SpecToken::Star,
            Token::Plus => SpecToken::Plus,
            Token::Minus => SpecToken::Minus,
            Token::Slash => SpecToken::Slash,
            Token::Eq => SpecToken::Eq,
            Token::Ne => SpecToken::Ne,
            Token::Lt => SpecToken::Lt,
            Token::Le => SpecToken::Le,
            Token::Gt => SpecToken::Gt,
            Token::Ge => SpecToken::Ge,
            Token::Semicolon => SpecToken::Semicolon,
        }
    }
}

pub open spec fn tokens_view(v: Seq<Token>) -> Seq<SpecToken> {
    v.map_values(|t: Token| t@)
}

/// Why the input could not be split into tokens (the character position).
#[derive(Debug, Clone, Copy, PartialEq, Eq, Structural)]
pub enum LexError {
    UnexpectedChar(usize),
    UnterminatedString(usize),
}

// ── Character classes ────────────────────────────────────────────────────────

pub open spec fn is_ws(c: char) -> bool {
    c == ' ' || c == '\t' || c == '\n' || c == '\r'
}

pub open spec fn is_digit(c: char) -> bool {
    '0' <= c && c <= '9'
}

pub open spec fn is_alpha(c: char) -> bool {
    ('a' <= c && c <= 'z') || ('A' <= c && c <= 'Z')
}

pub open spec fn is_ident_start(c: char) -> bool {
    is_alpha(c) || c == '_'
}

pub open spec fn is_ident_char(c: char) -> bool {
    is_ident_start(c) || is_digit(c)
}

/// `c` equals the upper-case ASCII letter or symbol `k`, ignoring ASCII case.
pub open spec fn ci_char(c: char, k: char) -> bool {
    c == k || ('A' <= k && k <= 'Z' && c as u32 == k as u32 + 32)
}

/// `w` spells `k` (written in upper case) ignoring ASCII case.
pub open spec fn ci_match(w: Seq<char>, k: Seq<char>) -> bool {
    w.len() == k.len() && forall|i: int| 0 <= i < w.len() ==> ci_char(#[trigger] w[i], k[i])
}

/// The reserved word that `w` spells, if any.
pub open spec fn keyword_of(w: Seq<char>) -> Option<Keyword> {
    if ci_match(w, "SELECT"@) {
        Some(Keyword::Select)
    } else if ci_match(w, "FROM"@) {
        Some(Keyword::From)
    } else if ci_match(w, "WHERE"@) {
        Some(Keyword::Where)
    } else if ci_match(w, "GROUP"@) {
        Some(Keyword::Group)
    } else if ci_match(w, "BY"@) {
        Some(Keyword::By)
    } else if ci_match(w, "LIMIT"@) {
        Some(Keyword::Limit)
    } else if ci_match(w, "AS"@) {
        Some(Keyword::As)
    } else if ci_match(w, "AND"@) {
        Some(Keyword::And)
    } else if ci_match(w, "OR"@) {
        Some(Keyword::Or)
    } else if ci_match(w, "NOT"@) {
        Some(Keyword::Not)
    } else if ci_match(w, "NULL"@) {
        Some(Keyword::Null)
    } else if ci_match(w, "TRUE"@) {
        Some(Keyword::True)
    } else if ci_match(w, "FALSE"@) {
        Some(Keyword::False)
    } else {
        None
    }
}

// ── Scanning ─────────────────────────────────────────────────────────────────

/// The end of the run of identifier characters that starts at `i`.
pub open spec fn ident_end(s: Seq<char>, i: int) -> int
    decreases s.len() - i,
{
    if 0 <= i < s.len() && is_ident_char(s[i]) {
        ident_end(s, i + 1)
    } else {
        i
    }
}

/// The end of the run of digits that starts at `i`.
pub open spec fn digits_end(s: Seq<char>, i: int) -> int
    decreases s.len() - i,
{
    if 0 <= i < s.len() && is_digit(s[i]) {
        digits_end(s, i + 1)
    } else {
        i
    }
}

/// The text of a quoted string whose characters start at `i`: where it
/// ends (at the first quote that is not doubled, or at the end of input)
/// and what it denotes, a doubled quote `''` standing for one quote.
pub open spec fn str_scan(s: Seq<char>, i: int) -> (int, Seq<char>)
    decreases s.len() - i,
{
    if i < 0 || i >= s.len() {
        (i, Seq::empty())
    } else if s[i] == '\'' {
        if i + 1 < s.len() && s[i + 1] == '\'' {
            let r = str_scan(s, i + 2);
            (r.0, seq!['\''] + r.1)
        } else {
            (i, Seq::empty())
        }
    } else {
        let r = str_scan(s, i + 1);
        (r.0, seq![s[i]] + r.1)
    }
}

pub proof fn lemma_ident_end(s: Seq<char>, i: int)
    requires
        0 <= i <= s.len(),
    ensures
        i <= ident_end(s, i) <= s.len(),
        forall|k: int| i <= k < ident_end(s, i) ==> is_ident_char(#[trigger] s[k]),
        ident_end(s, i) < s.len() ==> !is_ident_char(s[ident_end(s, i)]),
    decreases s.len() - i,
{
    if i < s.len() && is_ident_char(s[i]) {
        lemma_ident_end(s, i + 1);
    }
}

pub proof fn lemma_digits_end(s: Seq<char>, i: int)
    requires
        0 <= i <= s.len(),
    ensures
        i <= digits_end(s, i) <= s.len(),
        forall|k: int| i <= k < digits_end(s, i) ==> is_digit(#[trigger] s[k]),
        digits_end(s, i) < s.len() ==> !is_digit(s[digits_end(s, i)]),
    decreases s.len() - i,
{
    if i < s.len() && is_digit(s[i]) {
        lemma_digits_end(s, i + 1);
    }
}

pub proof fn lemma_str_scan(s: Seq<char>, i: int)
    requires
        0 <= i <= s.len(),
    ensures
        i <= str_scan(s, i).0 <= s.len(),
        str_scan(s, i).0 < s.len() ==> s[str_scan(s, i).0] == '\'',
    decreases s.len() - i,
{
    if i < s.len() {
        if s[i] == '\'' {
            if i + 1 < s.len() && s[i + 1] == '\'' {
                lemma_str_scan(s, i + 2);
            }
        } else {
            lemma_str_scan(s, i + 1);
        }
    }
}

/// What the character at position `i` starts.
pub enum Step {
    Skip(int),
    Tok(SpecToken, int),
    Fail(LexError),
}

/// One step of the tokenizer at position `i` (`i < s.len()`): skip a blank,
/// read one token and say where the next one starts, or fail.
pub open spec fn lex_step(s: Seq<char>, i: int) -> Step {
    let c = s[i];
    let n = s.len();
    if is_ws(c) {
        Step::Skip(i + 1)
    } else if is_ident_start(c) {
        let j = ident_end(s, i + 1);
        if j < n && n - j > 1 && s[j] == '.' && is_ident_start(s[j + 1]) {
            let k = ident_end(s, j + 2);
            Step::Tok(SpecToken::QualIdent(s.subrange(i, k)), k)
        } else {
            let w = s.subrange(i, j);
            match keyword_of(w) {
                Some(kw) => Step::Tok(SpecToken::Keyword(kw), j),
                None => Step::Tok(SpecToken::Ident(w), j),
            }
        }
    } else if is_digit(c) {
        let j = digits_end(s, i + 1);
        if j < n && n - j > 1 && s[j] == '.' && is_digit(s[j + 1]) {
            let k = digits_end(s, j + 2);
            Step::Tok(SpecToken::Float(s.subrange(i, k)), k)
        } else {
            Step::Tok(SpecToken::Int(s.subrange(i, j)), j)
        }
    } else if c == '\'' {
        let r = str_scan(s, i + 1);
        if r.0 >= n {
            Step::Fail(LexError::UnterminatedString(i as usize))
        } else {
            Step::Tok(SpecToken::Str(r.1), r.0 + 1)
        }
    } else if c == ',' {
        Step::Tok(SpecToken::Comma, i + 1)
    } else if c == '(' {
        Step::Tok(SpecToken::LParen, i + 1)
    } else if c == ')' {
        Step::Tok(SpecToken::RParen, i + 1)
    } else if c == '*' {
        Step::Tok(SpecToken::Star, i + 1)
    } else if c == '+' {
        Step::Tok(SpecToken::Plus, i + 1)
    } else if c == '-' {
        Step::Tok(SpecToken::Minus, i + 1)
    } else if c == '/' {
        Step::Tok(SpecToken::Slash, i + 1)
    } else if c == '=' {
        Step::Tok(SpecToken::Eq, i + 1)
    } else if c == ';' {
        Step::Tok(SpecToken::Semicolon, i + 1)
    } else if c == '<' {
        if i + 1 < n && s[i + 1] == '=' {
            Step::Tok(SpecToken::Le, i + 2)
        } else if i + 1 < n && s[i + 1] == '>' {
            Step::Tok(SpecToken::Ne, i + 2)
        } else {
            Step::Tok(SpecToken::Lt, i + 1)
        }
    } else if c == '>' {
        if i + 1 < n && s[i + 1] == '=' {
            Step::Tok(SpecToken::Ge, i + 2)
        } else {
            Step::Tok(SpecToken::Gt, i + 1)
        }
    } else if c == '!' && i + 1 < n && s[i + 1] == '=' {
        Step::Tok(SpecToken::Ne, i + 2)
    } else {
        Step::Fail(LexError::UnexpectedChar(i as usize))
    }
}

pub proof fn lemma_lex_step_advances(s: Seq<char>, i: int)
    requires
        0 <= i < s.len(),
    ensures
        match lex_step(s, i) {
            Step::Skip(j) => i < j <= s.len(),
            Step::Tok(_, j) => i < j <= s.len(),
            Step::Fail(_) => true,
        },
{
    lemma_ident_end(s, i + 1);
    lemma_digits_end(s, i + 1);
    lemma_str_scan(s, i + 1);
    let j = ident_end(s, i + 1);
    if j + 1 < s.len() {
        lemma_ident_end(s, j + 2);
    }
    let d = digits_end(s, i + 1);
    if d + 1 < s.len() {
        lemma_digits_end(s, d + 2);
    }
}

pub open spec fn prepend(p: Seq<SpecToken>, r: Result<Seq<SpecToken>, LexError>) -> Result<Seq<SpecToken>, LexError> {
    match r {
        Ok(t) => Ok(p + t),
        Err(e) => Err(e),
    }
}

/// The tokens of `s` from position `i` on.
pub open spec fn lex_from(s: Seq<char>, i: int) -> Result<Seq<SpecToken>, LexError>
    decreases s.len() - i,
{
    if i < 0 || i >= s.len() {
        Ok(Seq::empty())
    } else {
        proof {
            lemma_lex_step_advances(s, i);
        }
        match lex_step(s, i) {
            Step::Skip(j) => lex_from(s, j),
            Step::Tok(t, j) => prepend(seq![t], lex_from(s, j)),
            Step::Fail(e) => Err(e),
        }
    }
}

/// The tokens of the whole text.
pub open spec fn spec_tokenize(s: Seq<char>) -> Result<Seq<SpecToken>, LexError> {
    lex_from(s, 0)
}

// ── Executable tokenizer ─────────────────────────────────────────────────────

/// The characters of `s`, in order.
pub fn str_chars(s: &str) -> (r: Vec<char>)
    ensures
        r@ == s@,
{
    let n = s.unicode_len();
    let mut r: Vec<char> = Vec::new();
    let mut i: usize = 0;
    while i < n
        invariant
            n == s@.len(),
            i <= n,
            r@ == s@.subrange(0, i as int),
        decreases n - i,
    {
        let c = s.get_char(i);
        r.push(c);
        i = i + 1;
        assert(r@ =~= s@.subrange(0, i as int));
    }
    assert(r@ =~= s@);
    r
}

fn char_is_ws(c: char) -> (b: bool)
    ensures
        b == is_ws(c),
{
    c == ' ' || c == '\t' || c == '\n' || c == '\r'
}

fn char_is_digit(c: char) -> (b: bool)
    ensures
        b == is_digit(c),
{
    '0' <= c && c <= '9'
}

fn char_is_ident_start(c: char) -> (b: bool)
    ensures
        b == is_ident_start(c),
{
    ('a' <= c && c <= 'z') || ('A' <= c && c <= 'Z') || c == '_'
}

fn char_is_ident_char(c: char) -> (b: bool)
    ensures
        b == is_ident_char(c),
{
    char_is_ident_start(c) || char_is_digit(c)
}

fn scan_ident(s: &Vec<char>, i: usize) -> (j: usize)
    requires
        i <= s@.len(),
    ensures
        j == ident_end(s@, i as int),
{
    let mut j = i;
    while j < s.len() && char_is_ident_char(s[j])
        invariant
            i <= j <= s@.len(),
            ident_end(s@, i as int) == ident_end(s@, j as int),
        decreases s@.len() - j,
    {
        j = j + 1;
    }
    j
}

fn scan_digits(s: &Vec<char>, i: usize) -> (j: usize)
    requires
        i <= s@.len(),
    ensures
        j == digits_end(s@, i as int),
{
    let mut j = i;
    while j < s.len() && char_is_digit(s[j])
        invariant
            i <= j <= s@.len(),
            digits_end(s@, i as int) == digits_end(s@, j as int),
        decreases s@.len() - j,
    {
        j = j + 1;
    }
    j
}

fn scan_string(s: &Vec<char>, i: usize) -> (r: (usize, String))
    requires
        i <= s@.len(),
    ensures
        r.0 == str_scan(s@, i as int).0,
        r.1@ == str_scan(s@, i as int).1,
{
    let n = s.len();
    let mut j = i;
    let mut out = String::new();
    assert(out@ + str_scan(s@, j as int).1 =~= str_scan(s@, i as int).1);
    loop
        invariant
            n == s@.len(),
            i <= j <= n,
            str_scan(s@, i as int).0 == str_scan(s@, j as int).0,
            str_scan(s@, i as int).1 == out@ + str_scan(s@, j as int).1,
        decreases n - j,
    {
        if j >= n {
            assert(out@ + str_scan(s@, j as int).1 =~= out@);
            return (j, out);
        }
        if s[j] == '\'' {
            if j + 1 < n && s[j + 1] == '\'' {
                let ghost before = out@;
                push_char(&mut out, '\'');
                assert(before + str_scan(s@, j as int).1 =~= out@ + str_scan(s@, j + 2).1);
                j = j + 2;
            } else {
                assert(out@ + str_scan(s@, j as int).1 =~= out@);
                return (j, out);
            }
        } else {
            let ghost before = out@;
            push_char(&mut out, s[j]);
            assert(before + str_scan(s@, j as int).1 =~= out@ + str_scan(s@, j + 1).1);
            j = j + 1;
        }
    }
}

/// The characters `s[i..j]` as a string.
pub fn string_of(s: &Vec<char>, i: usize, j: usize) -> (r: String)
    requires
        i <= j <= s@.len(),
    ensures
        r@ == s@.subrange(i as int, j as int),
{
    let mut r = String::new();
    let mut k = i;
    while k < j
        invariant
            i <= k <= j <= s@.len(),
            r@ == s@.subrange(i as int, k as int),
        decreases j - k,
    {
        push_char(&mut r, s[k]);
        k = k + 1;
        assert(r@ =~= s@.subrange(i as int, k as int));
    }
    r
}

/// Appends one character (std's `String::push`).
#[verifier::external_body]
pub fn push_char(s: &mut String, c: char)
    ensures
        final(s)@ == old(s)@.push(c),
{
    s.push(c);
}

fn ci_char_exec(c: char, k: char) -> (b: bool)
    ensures
        b == ci_char(c, k),
{
    c == k || ('A' <= k && k <= 'Z' && (c as u32) == (k as u32) + 32)
}

/// Whether `s[i..j]` spells the upper-case word `k`, ignoring ASCII case.
pub fn ci_match_exec(s: &Vec<char>, i: usize, j: usize, k: &str) -> (b: bool)
    requires
        i <= j <= s@.len(),
    ensures
        b == ci_match(s@.subrange(i as int, j as int), k@),
{
    let n = k.unicode_len();
    if j - i != n {
        return false;
    }
    let mut p: usize = 0;
    while p < n
        invariant
            n == k@.len(),
            j - i == n,
            i <= j <= s@.len(),
            p <= n,
            forall|q: int| 0 <= q < p ==> ci_char(#[trigger] s@.subrange(i as int, j as int)[q], k@[q]),
        decreases n - p,
    {
        if !ci_char_exec(s[i + p], k.get_char(p)) {
            assert(!ci_char(s@.subrange(i as int, j as int)[p as int], k@[p as int]));
            return false;
        }
        p = p + 1;
    }
    true
}

fn keyword_exec(s: &Vec<char>, i: usize, j: usize) -> (r: Option<Keyword>)
    requires
        i <= j <= s@.len(),
    ensures
        r == keyword_of(s@.subrange(i as int, j as int)),
{
    if ci_match_exec(s, i, j, "SELECT") {
        Some(Keyword::Select)
    } else if ci_match_exec(s, i, j, "FROM") {
        Some(Keyword::From)
    } else if ci_match_exec(s, i, j, "WHERE") {
        Some(Keyword::Where)
    } else if ci_match_exec(s, i, j, "GROUP") {
        Some(Keyword::Group)
    } else if ci_match_exec(s, i, j, "BY") {
        Some(Keyword::By)
    } else if ci_match_exec(s, i, j, "LIMIT") {
        Some(Keyword::Limit)
    } else if ci_match_exec(s, i, j, "AS") {
        Some(Keyword::As)
    } else if ci_match_exec(s, i, j, "AND") {
        Some(Keyword::And)
    } else if ci_match_exec(s, i, j, "OR") {
        Some(Keyword::Or)
    } else if ci_match_exec(s, i, j, "NOT") {
        Some(Keyword::Not)
    } else if ci_match_exec(s, i, j, "NULL") {
        Some(Keyword::Null)
    } else if ci_match_exec(s, i, j, "TRUE") {
        Some(Keyword::True)
    } else if ci_match_exec(s, i, j, "FALSE") {
        Some(Keyword::False)
    } else {
        None
    }
}

/// Executable counterpart of `lex_step`: `None` means a blank was skipped.
fn step_exec(s: &Vec<char>, i: usize) -> (r: Result<(Option<Token>, usize), LexError>)
    requires
        i < s@.len(),
    ensures
        match (r, lex_step(s@, i as int)) {
            (Ok((None, j)), Step::Skip(k)) => j == k,
            (Ok((Some(t), j)), Step::Tok(u, k)) => t@ == u && j == k,
            (Err(e), Step::Fail(f)) => e == f,
            _ => false,
        },
{
    let c = s[i];
    let n = s.len();
    if char_is_ws(c) {
        Ok((None, i + 1))
    } else if char_is_ident_start(c) {
        let j = scan_ident(s, i + 1);
        proof {
            lemma_ident_end(s@, i + 1);
        }
        if j < n && n - j > 1 && s[j] == '.' && char_is_ident_start(s[j + 1]) {
            let k = scan_ident(s, j + 2);
            proof {
                lemma_ident_end(s@, j + 2);
            }
            Ok((Some(Token::QualIdent(string_of(s, i, k))), k))
        } else {
            match keyword_exec(s, i, j) {
                Some(kw) => Ok((Some(Token::Keyword(kw)), j)),
                None => Ok((Some(Token::Ident(string_of(s, i, j))), j)),
            }
        }
    } else if char_is_digit(c) {
        let j = scan_digits(s, i + 1);
        proof {
            lemma_digits_end(s@, i + 1);
        }
        if j < n && n - j > 1 && s[j] == '.' && char_is_digit(s[j + 1]) {
            let k = scan_digits(s, j + 2);
            proof {
                lemma_digits_end(s@, j + 2);
            }
            Ok((Some(Token::Float(string_of(s, i, k))), k))
        } else {
            Ok((Some(Token::Int(string_of(s, i, j))), j))
        }
    } else if c == '\'' {
        let (j, text) = scan_string(s, i + 1);
        proof {
            lemma_str_scan(s@, i + 1);
        }
        if j >= n {
            Err(LexError::UnterminatedString(i))
        } else {
            Ok((Some(Token::Str(text)), j + 1))
        }
    } else if c == ',' {
        Ok((Some(Token::Comma), i + 1))
    } else if c == '(' {
        Ok((Some(Token::LParen), i + 1))
    } else if c == ')' {
        Ok((Some(Token::RParen), i + 1))
    } else if c == '*' {
        Ok((Some(Token::Star), i + 1))
    } else if c == '+' {
        Ok((Some(Token::Plus), i + 1))
    } else if c == '-' {
        Ok((Some(Token::Minus), i + 1))
    } else if c == '/' {
        Ok((Some(Token::Slash), i + 1))
    } else if c == '=' {
        Ok((Some(Token::Eq), i + 1))
    } else if c == ';' {
        Ok((Some(Token::Semicolon), i + 1))
    } else if c == '<' {
        if i + 1 < n && s[i + 1] == '=' {
            Ok((Some(Token::Le), i + 2))
        } else if i + 1 < n && s[i + 1] == '>' {
            Ok((Some(Token::Ne), i + 2))
        } else {
            Ok((Some(Token::Lt), i + 1))
        }
    } else if c == '>' {
        if i + 1 < n && s[i + 1] == '=' {
            Ok((Some(Token::Ge), i + 2))
        } else {
            Ok((Some(Token::Gt), i + 1))
        }
    } else if c == '!' && i + 1 < n && s[i + 1] == '=' {
        Ok((Some(Token::Ne), i + 2))
    } else {
        Err(LexError::UnexpectedChar(i))
    }
}

/// Splits the SQL text into tokens; fails exactly where `spec_tokenize` fails.
pub fn tokenize(sql: &str) -> (r: Result<Vec<Token>, LexError>)
    ensures
        match (r, spec_tokenize(sql@)) {
            (Ok(ts), Ok(u)) => tokens_view(ts@) == u,
            (Err(e), Err(f)) => e == f,
            _ => false,
        },
{
    let s = str_chars(sql);
    let mut toks: Vec<Token> = Vec::new();
    let mut i: usize = 0;
    while i < s.len()
        invariant
            i <= s@.len(),
            s@ == sql@,
            spec_tokenize(sql@) == prepend(tokens_view(toks@), lex_from(s@, i as int)),
        decreases s@.len() - i,
    {
        proof {
            lemma_lex_step_advances(s@, i as int);
        }
        let ghost before = toks@;
        match step_exec(&s, i) {
            Ok((None, j)) => {
                i = j;
            },
            Ok((Some(t), j)) => {
                toks.push(t);
                proof {
                    assert(tokens_view(toks@) =~= tokens_view(before) + seq![t@]);
                    match lex_from(s@, j as int) {
                        Ok(rest) => {
                            assert(tokens_view(before) + (seq![t@] + rest) =~= tokens_view(toks@) + rest);
                        },
                        Err(_) => {},
                    }
                }
                i = j;
            },
            Err(e) => {
                return Err(e);
            },
        }
    }
    assert(tokens_view(toks@) + Seq::<SpecToken>::empty() =~= tokens_view(toks@));
    Ok(toks)
}

} // verus!
