//! Lexical data model and the lexer: token kinds, declared types, literal
//! values, tokens, and the single-pass scanner that turns source text into an
//! ordered token sequence.

use vstd::prelude::*;

verus! {

/// The closed vocabulary of lexical units the lexer produces and the parser
/// consumes.
#[derive(Clone, Copy, Debug, PartialEq, Eq, Structural)]
pub enum TokenType {
    Identifier,
    IntVarKeyword,
    StrVarKeyword,
    String,
    Number,
    Plus,
    Minus,
    Slash,
    Star,
    Semicolon,
    LParen,
    RParen,
    Equals,
    Comment,
    VarKeyword,
    Display,
    DisplayInt,
    DisplayStr,
    If,
    Then,
    Elif,
    Else,
    EndIfElse,
    LessThan,
    LessOrEqual,
    GreaterThan,
    GreaterOrEqual,
    EOF,
}

/// The type tag a variable declaration carries; never inferred from
/// expressions.
#[derive(Clone, Copy, Debug, PartialEq, Eq, Structural)]
pub enum Type {
    Int,
    Str,
    Unknown,
}

/// The literal value attached to a token, when it has one.
#[derive(Debug)]
pub enum Literal {
    Integer(i64),
    String(String),
}

/// Mathematical model of a `Literal`: the string payload is a sequence of
/// characters.
pub ghost enum LiteralV {
    Integer(i64),
    String(Seq<char>),
}

impl View for Literal {
    type V = LiteralV;

    open spec fn view(&self) -> LiteralV {
        match self {
            Literal::Integer(i) => LiteralV::Integer(*i),
            Literal::String(s) => LiteralV::String(s@),
        }
    }
}

impl Clone for Literal {
    fn clone(&self) -> (res: Self)
        ensures
            res == *self,
    {
        match self {
            Literal::Integer(i) => Literal::Integer(*i),
            Literal::String(s) => Literal::String(s.clone()),
        }
    }
}

/// A classified, line-tagged unit of lexical input. `lexeme` is the exact
/// source substring the token was built from.
#[derive(Debug)]
pub struct Token {
    pub token_type: TokenType,
    pub lexeme: String,
    pub literal: Option<Literal>,
    pub line: u32,
    pub var_type: Option<Type>,
}

/// Mathematical model of a `Token`.
pub ghost struct TokenV {
    pub token_type: TokenType,
    pub lexeme: Seq<char>,
    pub literal: Option<LiteralV>,
    pub line: u32,
    pub var_type: Option<Type>,
}

impl View for Token {
    type V = TokenV;

    open spec fn view(&self) -> TokenV {
        TokenV {
            token_type: self.token_type,
            lexeme: self.lexeme@,
            literal: match self.literal {
                Some(l) => Some(l@),
                None => None,
            },
            line: self.line,
            var_type: self.var_type,
        }
    }
}

impl Clone for Token {
    fn clone(&self) -> (res: Self)
        ensures
            res == *self,
    {
        Token {
            token_type: self.token_type,
            lexeme: self.lexeme.clone(),
            literal: match &self.literal {
                Some(l) => Some(l.clone()),
                None => None,
            },
            line: self.line,
            var_type: self.var_type,
        }
    }
}

impl Token {
    /// Builds a token from its parts.
    pub fn newtok(
        token_type: TokenType,
        lexeme: String,
        literal: Option<Literal>,
        line: u32,
        var_type: Option<Type>,
    ) -> (t: Self)
        ensures
            t.token_type == token_type,
            t.lexeme == lexeme,
            t.literal == literal,
            t.line == line,
            t.var_type == var_type,
    {
        Token { token_type, lexeme, literal, line, var_type }
    }
}

/// The view of a whole token sequence.
pub open spec fn views_of(ts: Seq<Token>) -> Seq<TokenV> {
    ts.map_values(|t: Token| t@)
}

/// Appending one token to a sequence appends its view to the sequence's view.
pub proof fn lemma_views_push(ts: Seq<Token>, t: Token)
    ensures
        views_of(ts.push(t)) == views_of(ts) + seq![t@],
{
    assert(views_of(ts.push(t)) =~= views_of(ts) + seq![t@]);
}

/// A non-fatal lexical diagnostic. The lexer records it and scans on; no
/// token is emitted for the offending span.
#[derive(Clone, Copy, Debug, PartialEq, Eq, Structural)]
pub enum LexWarning {
    UnexpectedCharacter { line: u32 },
    UnterminatedString { line: u32 },
}

/// Whether the lexer knows `c` as a character of Unicode's whitespace class.
pub uninterp spec fn unicode_whitespace(c: char) -> bool;

/// Whether the lexer knows `c` as a character of Unicode's alphanumeric class.
pub uninterp spec fn unicode_alphanumeric(c: char) -> bool;

/// Relies on char::is_whitespace: the result depends on the character alone.
#[verifier::external_body]
fn is_whitespace_char(c: char) -> (r: bool)
    ensures
        r == unicode_whitespace(c),
{
    c.is_whitespace()
}

/// Relies on char::is_alphanumeric: the result depends on the character alone.
#[verifier::external_body]
fn is_alphanumeric_char(c: char) -> (r: bool)
    ensures
        r == unicode_alphanumeric(c),
{
    c.is_alphanumeric()
}

/// Relies on String::from_iter over a char iterator: the string holds exactly
/// the characters of `v`, in order.
#[verifier::external_body]
pub(crate) fn chars_to_string(v: &Vec<char>) -> (s: String)
    ensures
        s@ == v@,
{
    v.iter().collect()
}

/// The single-character operators and punctuation that flush the pending
/// buffer and emit a token of their own.
pub open spec fn is_op_char(c: char) -> bool {
    c == '+' || c == '-' || c == '*' || c == '/' || c == '=' || c == '(' || c == ')' || c == ';'
}

/// The token kind of a single-character operator.
pub open spec fn op_token_type(c: char) -> TokenType {
    if c == '+' {
        TokenType::Plus
    } else if c == '-' {
        TokenType::Minus
    } else if c == '*' {
        TokenType::Star
    } else if c == '/' {
        TokenType::Slash
    } else if c == '=' {
        TokenType::Equals
    } else if c == '(' {
        TokenType::LParen
    } else if c == ')' {
        TokenType::RParen
    } else {
        TokenType::Semicolon
    }
}

pub open spec fn is_digit_char(c: char) -> bool {
    48 <= c as u32 && c as u32 <= 57
}

pub open spec fn is_ident_start_char(c: char) -> bool {
    (65 <= c as u32 && c as u32 <= 90) || (97 <= c as u32 && c as u32 <= 122) || c == '_'
}

pub open spec fn is_ident_char(c: char) -> bool {
    is_ident_start_char(c) || is_digit_char(c)
}

/// A non-empty run of decimal digits.
pub open spec fn all_digits(b: Seq<char>) -> bool {
    b.len() > 0 && forall|k: int| 0 <= k < b.len() ==> is_digit_char(#[trigger] b[k])
}

/// An identifier-shaped buffer: a letter or underscore followed by letters,
/// digits and underscores.
pub open spec fn ident_shaped(b: Seq<char>) -> bool {
    b.len() > 0 && is_ident_start_char(b[0]) && forall|k: int|
        0 <= k < b.len() ==> is_ident_char(#[trigger] b[k])
}

/// The numeric value of a digit run, read in decimal.
pub open spec fn dec_val(s: Seq<char>) -> int
    decreases s.len(),
{
    if s.len() == 0 {
        0
    } else {
        dec_val(s.drop_last()) * 10 + (s.last() as u32 - 48)
    }
}

/// The literal attached to a `Number` token: the parsed integer when the
/// digit run's value fits a signed 64-bit integer, nothing otherwise.
pub open spec fn number_value(b: Seq<char>) -> Option<i64> {
    if 0 <= dec_val(b) <= i64::MAX {
        Some(dec_val(b) as i64)
    } else {
        None
    }
}

/// The keyword table: an exact buffer match yields a keyword token kind and,
/// for the two variable-declaration keywords, the declared type it carries.
pub open spec fn spec_keyword(b: Seq<char>) -> Option<(TokenType, Option<Type>)> {
    if b == "VARint"@ {
        Some((TokenType::IntVarKeyword, Some(Type::Int)))
    } else if b == "VARstr"@ {
        Some((TokenType::StrVarKeyword, Some(Type::Str)))
    } else if b == "DISPLAY"@ {
        Some((TokenType::Display, None))
    } else if b == "DISPLAYnumeric"@ {
        Some((TokenType::DisplayInt, None))
    } else if b == "DISPLAYstring"@ {
        Some((TokenType::DisplayStr, None))
    } else if b == "END"@ {
        Some((TokenType::EOF, None))
    } else if b == "IF"@ {
        Some((TokenType::If, None))
    } else if b == "THEN"@ {
        Some((TokenType::Then, None))
    } else if b == "ELIF"@ {
        Some((TokenType::Elif, None))
    } else if b == "ELSE"@ {
        Some((TokenType::Else, None))
    } else if b == "END-IF"@ {
        Some((TokenType::EndIfElse, None))
    } else {
        None
    }
}

/// Classification of a flushed buffer: the tokens it emits (none or one).
pub open spec fn classify_tokens(b: Seq<char>, line: u32) -> Seq<TokenV> {
    if b.len() == 0 {
        Seq::empty()
    } else if spec_keyword(b) is Some {
        let (tt, vt) = spec_keyword(b)->Some_0;
        seq![TokenV {
            token_type: tt,
            lexeme: b,
            literal: Some(LiteralV::String(b)),
            line,
            var_type: vt,
        }]
    } else if all_digits(b) {
        seq![TokenV {
            token_type: TokenType::Number,
            lexeme: b,
            literal: match number_value(b) {
                Some(i) => Some(LiteralV::Integer(i)),
                None => None,
            },
            line,
            var_type: None,
        }]
    } else if ident_shaped(b) {
        seq![TokenV {
            token_type: TokenType::Identifier,
            lexeme: b,
            literal: Some(LiteralV::String(b)),
            line,
            var_type: None,
        }]
    } else {
        Seq::empty()
    }
}

/// Classification of a flushed buffer: the warnings it records (none or one).
pub open spec fn classify_warnings(b: Seq<char>, line: u32) -> Seq<LexWarning> {
    if b.len() == 0 || spec_keyword(b) is Some || all_digits(b) || ident_shaped(b) {
        Seq::empty()
    } else {
        seq![LexWarning::UnexpectedCharacter { line }]
    }
}

/// Whether the scanner is between quotes, and what it has gathered there.
pub ghost enum LexMode {
    Normal,
    InString(Seq<char>),
}

/// A string-literal scan from position `k`: the gathered content and the
/// position after the closing quote, or nothing and the input's end when no
/// closing quote exists.
pub open spec fn s_scan(cs: Seq<char>, k: int, acc: Seq<char>) -> (Option<Seq<char>>, int)
    decreases cs.len() - k,
{
    if k < 0 || k >= cs.len() {
        (None, cs.len() as int)
    } else if cs[k] == '"' {
        (Some(acc), k + 1)
    } else {
        s_scan(cs, k + 1, acc.push(cs[k]))
    }
}

/// One left-to-right scan of `cs` from position `i`, with the pending buffer
/// `buf` and the current line number: the tokens emitted, the warnings
/// recorded, and the final line number. The line number counts `;` tokens,
/// not physical line breaks. A `-` directly extending a pending `END` buffer
/// joins it, so that `END-IF` forms one keyword; `<` and `>` join a directly
/// following `=`.
pub open spec fn s_lex_from(
    cs: Seq<char>,
    i: int,
    mode: LexMode,
    buf: Seq<char>,
    line: u32,
) -> (Seq<TokenV>, Seq<LexWarning>, u32)
    decreases cs.len() - i,
{
    if i < 0 || i >= cs.len() {
        match mode {
            LexMode::Normal => (classify_tokens(buf, line), classify_warnings(buf, line), line),
            LexMode::InString(acc) => (
                classify_tokens(buf, line),
                seq![LexWarning::UnterminatedString { line }] + classify_warnings(buf, line),
                line,
            ),
        }
    } else {
        let c = cs[i];
        match mode {
            LexMode::InString(acc) => {
                if c == '"' {
                    let tok = TokenV {
                        token_type: TokenType::String,
                        lexeme: acc,
                        literal: Some(LiteralV::String(acc)),
                        line,
                        var_type: Some(Type::Str),
                    };
                    let (ts, ws, lf) = s_lex_from(cs, i + 1, LexMode::Normal, buf, line);
                    (seq![tok] + ts, ws, lf)
                } else {
                    s_lex_from(cs, i + 1, LexMode::InString(acc.push(c)), buf, line)
                }
            },
            LexMode::Normal => {
                if c == '-' && buf == "END"@ {
                    s_lex_from(cs, i + 1, LexMode::Normal, buf.push('-'), line)
                } else if is_op_char(c) {
                    let tok = TokenV {
                        token_type: op_token_type(c),
                        lexeme: seq![c],
                        literal: None,
                        line,
                        var_type: None,
                    };
                    let l2 = if c == ';' {
                        (line + 1) as u32
                    } else {
                        line
                    };
                    let (ts, ws, lf) = s_lex_from(cs, i + 1, LexMode::Normal, Seq::empty(), l2);
                    (
                        classify_tokens(buf, line) + seq![tok] + ts,
                        classify_warnings(buf, line) + ws,
                        lf,
                    )
                } else if c == '<' || c == '>' {
                    if i + 1 < cs.len() && cs[i + 1] == '=' {
                        let tok = TokenV {
                            token_type: if c == '<' {
                                TokenType::LessOrEqual
                            } else {
                                TokenType::GreaterOrEqual
                            },
                            lexeme: seq![c, '='],
                            literal: None,
                            line,
                            var_type: None,
                        };
                        let (ts, ws, lf) = s_lex_from(
                            cs,
                            i + 2,
                            LexMode::Normal,
                            Seq::empty(),
                            line,
                        );
                        (
                            classify_tokens(buf, line) + seq![tok] + ts,
                            classify_warnings(buf, line) + ws,
                            lf,
                        )
                    } else {
                        let tok = TokenV {
                            token_type: if c == '<' {
                                TokenType::LessThan
                            } else {
                                TokenType::GreaterThan
                            },
                            lexeme: seq![c],
                            literal: None,
                            line,
                            var_type: None,
                        };
                        let (ts, ws, lf) = s_lex_from(
                            cs,
                            i + 1,
                            LexMode::Normal,
                            Seq::empty(),
                            line,
                        );
                        (
                            classify_tokens(buf, line) + seq![tok] + ts,
                            classify_warnings(buf, line) + ws,
                            lf,
                        )
                    }
                } else if c == '"' {
                    s_lex_from(cs, i + 1, LexMode::InString(Seq::empty()), buf, line)
                } else if unicode_whitespace(c) {
                    let (ts, ws, lf) = s_lex_from(cs, i + 1, LexMode::Normal, Seq::empty(), line);
                    (
                        classify_tokens(buf, line) + ts,
                        classify_warnings(buf, line) + ws,
                        lf,
                    )
                } else if unicode_alphanumeric(c) || c == '_' {
                    s_lex_from(cs, i + 1, LexMode::Normal, buf.push(c), line)
                } else {
                    let (ts, ws, lf) = s_lex_from(cs, i + 1, LexMode::Normal, Seq::empty(), line);
                    (
                        classify_tokens(buf, line) + ts,
                        classify_warnings(buf, line) + ws,
                        lf,
                    )
                }
            },
        }
    }
}

/// The whole scan of `cs`, starting on line `line0` with an empty buffer.
pub open spec fn s_lex(cs: Seq<char>, line0: u32) -> (Seq<TokenV>, Seq<LexWarning>, u32) {
    s_lex_from(cs, 0, LexMode::Normal, Seq::empty(), line0)
}

/// How many `;` characters stand at or after position `i`; each of them can
/// advance the line counter by one.
pub open spec fn count_semis_from(cs: Seq<char>, i: int) -> int
    decreases cs.len() - i,
{
    if i < 0 || i >= cs.len() {
        0
    } else {
        (if cs[i] == ';' {
            1int
        } else {
            0int
        }) + count_semis_from(cs, i + 1)
    }
}

pub proof fn lemma_count_semis_nonneg(cs: Seq<char>, i: int)
    ensures
        count_semis_from(cs, i) >= 0,
    decreases cs.len() - i,
{
    if 0 <= i < cs.len() {
        lemma_count_semis_nonneg(cs, i + 1);
    }
}

pub proof fn lemma_count_semis_mono(cs: Seq<char>, i: int, j: int)
    requires
        0 <= i <= j,
    ensures
        count_semis_from(cs, j) <= count_semis_from(cs, i),
    decreases j - i,
{
    if i < j && i < cs.len() {
        lemma_count_semis_mono(cs, i + 1, j);
    }
}

/// What a scan in string mode amounts to: the stand-alone string scan,
/// followed by the normal-mode continuation.
pub open spec fn string_step(
    cs: Seq<char>,
    k: int,
    acc: Seq<char>,
    buf: Seq<char>,
    line: u32,
) -> (Seq<TokenV>, Seq<LexWarning>, u32) {
    match s_scan(cs, k, acc) {
        (Some(content), j) => {
            let tok = TokenV {
                token_type: TokenType::String,
                lexeme: content,
                literal: Some(LiteralV::String(content)),
                line,
                var_type: Some(Type::Str),
            };
            let (ts, ws, lf) = s_lex_from(cs, j, LexMode::Normal, buf, line);
            (seq![tok] + ts, ws, lf)
        },
        (None, j) => (
            classify_tokens(buf, line),
            seq![LexWarning::UnterminatedString { line }] + classify_warnings(buf, line),
            line,
        ),
    }
}

pub proof fn lemma_instring_is_string_step(
    cs: Seq<char>,
    k: int,
    acc: Seq<char>,
    buf: Seq<char>,
    line: u32,
)
    ensures
        s_lex_from(cs, k, LexMode::InString(acc), buf, line) == string_step(cs, k, acc, buf, line),
    decreases cs.len() - k,
{
    if 0 <= k < cs.len() && cs[k] != '"' {
        lemma_instring_is_string_step(cs, k + 1, acc.push(cs[k]), buf, line);
    }
}

/// Compares a character buffer with a string, character by character.
fn chars_eq_str(v: &Vec<char>, s: &str) -> (r: bool)
    ensures
        r == (v@ == s@),
{
    let n = s.unicode_len();
    if v.len() != n {
        return false;
    }
    let mut j: usize = 0;
    while j < n
        invariant
            j <= n,
            n == s@.len(),
            v@.len() == n,
            forall|k: int| 0 <= k < j ==> v@[k] == s@[k],
        decreases n - j,
    {
        if v[j] != s.get_char(j) {
            return false;
        }
        j += 1;
    }
    proof {
        assert(v@ =~= s@);
    }
    true
}

/// The token kind of a single-character operator.
fn op_type(c: char) -> (tt: TokenType)
    requires
        is_op_char(c),
    ensures
        tt == op_token_type(c),
{
    if c == '+' {
        TokenType::Plus
    } else if c == '-' {
        TokenType::Minus
    } else if c == '*' {
        TokenType::Star
    } else if c == '/' {
        TokenType::Slash
    } else if c == '=' {
        TokenType::Equals
    } else if c == '(' {
        TokenType::LParen
    } else if c == ')' {
        TokenType::RParen
    } else {
        TokenType::Semicolon
    }
}

/// Decides whether the buffer is a non-empty run of decimal digits.
fn all_digits_exec(v: &Vec<char>) -> (r: bool)
    ensures
        r == all_digits(v@),
{
    if v.len() == 0 {
        return false;
    }
    let mut j: usize = 0;
    while j < v.len()
        invariant
            j <= v@.len(),
            forall|k: int| 0 <= k < j ==> is_digit_char(#[trigger] v@[k]),
        decreases v@.len() - j,
    {
        let u = v[j] as u32;
        if !(48 <= u && u <= 57) {
            return false;
        }
        j += 1;
    }
    true
}

/// Decides whether the buffer is identifier-shaped.
fn ident_shaped_exec(v: &Vec<char>) -> (r: bool)
    ensures
        r == ident_shaped(v@),
{
    if v.len() == 0 {
        return false;
    }
    let u0 = v[0] as u32;
    if !((65 <= u0 && u0 <= 90) || (97 <= u0 && u0 <= 122) || v[0] == '_') {
        return false;
    }
    let mut j: usize = 0;
    while j < v.len()
        invariant
            j <= v@.len(),
            v@.len() > 0,
            is_ident_start_char(v@[0]),
            forall|k: int| 0 <= k < j ==> is_ident_char(#[trigger] v@[k]),
        decreases v@.len() - j,
    {
        let u = v[j] as u32;
        if !((65 <= u && u <= 90) || (97 <= u && u <= 122) || v[j] == '_' || (48 <= u && u <= 57)) {
            return false;
        }
        j += 1;
    }
    true
}

proof fn lemma_dec_val_nonneg(s: Seq<char>)
    requires
        forall|k: int| 0 <= k < s.len() ==> is_digit_char(#[trigger] s[k]),
    ensures
        dec_val(s) >= 0,
    decreases s.len(),
{
    if s.len() > 0 {
        lemma_dec_val_nonneg(s.drop_last());
    }
}

/// Reads a non-empty digit run as a decimal integer: its value when it fits
/// a signed 64-bit integer, nothing otherwise.
fn parse_dec(v: &Vec<char>) -> (r: Option<i64>)
    requires
        all_digits(v@),
    ensures
        r == number_value(v@),
{
    let mut acc: i64 = 0;
    let mut over: bool = false;
    let mut j: usize = 0;
    while j < v.len()
        invariant
            all_digits(v@),
            j <= v@.len(),
            !over ==> 0 <= acc == dec_val(v@.take(j as int)),
            over ==> dec_val(v@.take(j as int)) > i64::MAX,
        decreases v@.len() - j,
    {
        assert(is_digit_char(v@[j as int]));
        let d: i64 = (v[j] as u32 - 48) as i64;
        proof {
            assert(v@.take(j + 1).drop_last() =~= v@.take(j as int));
            assert(v@.take(j + 1).last() == v@[j as int]);
        }
        if over {
            proof {
                lemma_dec_val_nonneg(v@.take(j as int));
            }
        } else if acc > (i64::MAX - d) / 10 {
            over = true;
        } else {
            acc = acc * 10 + d;
        }
        j += 1;
    }
    proof {
        assert(v@.take(v@.len() as int) =~= v@);
    }
    if over {
        None
    } else {
        Some(acc)
    }
}

/// The lexer: a single left-to-right scan over the source characters,
/// keeping a pending-text buffer and a running line counter. The line counter
/// advances only when a `;` token is produced, so diagnostics count
/// statements, not physical source lines.
pub struct Lexer {
    pub tokens: Vec<Token>,
    pub line: u32,
    pub warnings: Vec<LexWarning>,
}

impl Lexer {
    /// A fresh lexer: no tokens, no warnings, line counter at one.
    pub fn new() -> (l: Self)
        ensures
            l.tokens@ == Seq::<Token>::empty(),
            l.line == 1,
            l.warnings@ == Seq::<LexWarning>::empty(),
    {
        Lexer { tokens: Vec::new(), line: 1, warnings: Vec::new() }
    }

    /// Flushes the pending buffer: classifies it as a keyword, a number or an
    /// identifier and emits that token, or records a warning; an empty buffer
    /// does nothing. The buffer is left empty.
    fn handle_buffer(&mut self, buffer: &mut Vec<char>)
        ensures
            views_of(final(self).tokens@) == views_of(old(self).tokens@) + classify_tokens(
                old(buffer)@,
                old(self).line,
            ),
            final(self).warnings@ == old(self).warnings@ + classify_warnings(
                old(buffer)@,
                old(self).line,
            ),
            final(self).line == old(self).line,
            final(buffer)@ == Seq::<char>::empty(),
    {
        let ghost b = old(buffer)@;
        let ghost line = self.line;
        if buffer.len() == 0 {
            proof {
                assert(views_of(self.tokens@) =~= views_of(self.tokens@) + classify_tokens(
                    b,
                    line,
                ));
                assert(self.warnings@ =~= self.warnings@ + classify_warnings(b, line));
            }
            return ;
        }
        let kw: Option<(TokenType, Option<Type>)> = if chars_eq_str(buffer, "VARint") {
            Some((TokenType::IntVarKeyword, Some(Type::Int)))
        } else if chars_eq_str(buffer, "VARstr") {
            Some((TokenType::StrVarKeyword, Some(Type::Str)))
        } else if chars_eq_str(buffer, "DISPLAY") {
            Some((TokenType::Display, None))
        } else if chars_eq_str(buffer, "DISPLAYnumeric") {
            Some((TokenType::DisplayInt, None))
        } else if chars_eq_str(buffer, "DISPLAYstring") {
            Some((TokenType::DisplayStr, None))
        } else if chars_eq_str(buffer, "END") {
            Some((TokenType::EOF, None))
        } else if chars_eq_str(buffer, "IF") {
            Some((TokenType::If, None))
        } else if chars_eq_str(buffer, "THEN") {
            Some((TokenType::Then, None))
        } else if chars_eq_str(buffer, "ELIF") {
            Some((TokenType::Elif, None))
        } else if chars_eq_str(buffer, "ELSE") {
            Some((TokenType::Else, None))
        } else if chars_eq_str(buffer, "END-IF") {
            Some((TokenType::EndIfElse, None))
        } else {
            None
        };
        proof {
            assert(kw == spec_keyword(b));
        }
        match kw {
            Some((tt, vt)) => {
                let lexeme = chars_to_string(buffer);
                let lit = Some(Literal::String(lexeme.clone()));
                let t = Token::newtok(tt, lexeme, lit, self.line, vt);
                self.tokens.push(t);
                proof {
                    assert(views_of(self.tokens@) =~= views_of(old(self).tokens@)
                        + classify_tokens(b, line));
                    assert(self.warnings@ =~= self.warnings@ + classify_warnings(b, line));
                }
            },
            None => {
                if all_digits_exec(buffer) {
                    let lexeme = chars_to_string(buffer);
                    let lit = match parse_dec(buffer) {
                        Some(i) => Some(Literal::Integer(i)),
                        None => None,
                    };
                    let t = Token::newtok(TokenType::Number, lexeme, lit, self.line, None);
                    self.tokens.push(t);
                    proof {
                        assert(views_of(self.tokens@) =~= views_of(old(self).tokens@)
                            + classify_tokens(b, line));
                        assert(self.warnings@ =~= self.warnings@ + classify_warnings(b, line));
                    }
                } else if ident_shaped_exec(buffer) {
                    let lexeme = chars_to_string(buffer);
                    let lit = Some(Literal::String(lexeme.clone()));
                    let t = Token::newtok(TokenType::Identifier, lexeme, lit, self.line, None);
                    self.tokens.push(t);
                    proof {
                        assert(views_of(self.tokens@) =~= views_of(old(self).tokens@)
                            + classify_tokens(b, line));
                        assert(self.warnings@ =~= self.warnings@ + classify_warnings(b, line));
                    }
                } else {
                    self.warnings.push(LexWarning::UnexpectedCharacter { line: self.line });
                    proof {
                        assert(views_of(self.tokens@) =~= views_of(self.tokens@) + classify_tokens(
                            b,
                            line,
                        ));
                        assert(self.warnings@ =~= old(self).warnings@ + classify_warnings(
                            b,
                            line,
                        ));
                    }
                }
            },
        }
        buffer.clear();
    }

    /// Scans a string literal from `start` (just after the opening quote):
    /// consumes characters verbatim until a closing quote and emits the
    /// `String` token, or reaches the input's end, records an
    /// unterminated-string warning and emits nothing. Returns the position
    /// after the consumed span.
    fn string_handle(&mut self, input: &str, start: usize) -> (j: usize)
        requires
            start <= input@.len(),
        ensures
            final(self).line == old(self).line,
            start <= j <= input@.len(),
            ({
                let (content_opt, jj) = s_scan(input@, start as int, Seq::empty());
                match content_opt {
                    Some(content) => {
                        &&& j == jj
                        &&& views_of(final(self).tokens@) == views_of(old(self).tokens@) + seq![
                            TokenV {
                                token_type: TokenType::String,
                                lexeme: content,
                                literal: Some(LiteralV::String(content)),
                                line: old(self).line,
                                var_type: Some(Type::Str),
                            },
                        ]
                        &&& final(self).warnings@ == old(self).warnings@
                    },
                    None => {
                        &&& j == input@.len()
                        &&& final(self).tokens@ == old(self).tokens@
                        &&& final(self).warnings@ == old(self).warnings@ + seq![
                            LexWarning::UnterminatedString { line: old(self).line },
                        ]
                    },
                }
            }),
    {
        let n = input.unicode_len();
        let mut content: Vec<char> = Vec::new();
        let mut k: usize = start;
        while k < n
            invariant
                n == input@.len(),
                start <= k <= n,
                s_scan(input@, start as int, Seq::empty()) == s_scan(input@, k as int, content@),
                *self == *old(self),
            decreases n - k,
        {
            let c = input.get_char(k);
            if c == '"' {
                let lexeme = chars_to_string(&content);
                let lit = Some(Literal::String(lexeme.clone()));
                let t = Token::newtok(TokenType::String, lexeme, lit, self.line, Some(Type::Str));
                self.tokens.push(t);
                proof {
                    assert(views_of(self.tokens@) =~= views_of(old(self).tokens@) + seq![t@]);
                }
                return k + 1;
            }
            content.push(c);
            k += 1;
        }
        self.warnings.push(LexWarning::UnterminatedString { line: self.line });
        n
    }

    /// Scans `input` and appends its tokens to this lexer's token sequence,
    /// recording a warning for each unrecognized span and each unterminated
    /// string literal. The line counter must have room for one step per `;`
    /// in the input.
    #[verifier::rlimit(60)]
    pub fn tokenize(&mut self, input: &str)
        requires
            old(self).line + count_semis_from(input@, 0) <= u32::MAX,
        ensures
            ({
                let (ts, ws, lf) = s_lex(input@, old(self).line);
                &&& views_of(final(self).tokens@) == views_of(old(self).tokens@) + ts
                &&& final(self).warnings@ == old(self).warnings@ + ws
                &&& final(self).line == lf
            }),
    {
        let ghost cs = input@;
        let ghost line0 = self.line;
        let n = input.unicode_len();
        let mut buffer: Vec<char> = Vec::new();
        let mut i: usize = 0;
        let ghost mut pre_t: Seq<TokenV> = Seq::empty();
        let ghost mut pre_w: Seq<LexWarning> = Seq::empty();
        while i < n
            invariant
                n == cs.len(),
                input@ == cs,
                i <= n,
                self.line + count_semis_from(cs, i as int) <= u32::MAX,
                views_of(self.tokens@) == views_of(old(self).tokens@) + pre_t,
                self.warnings@ == old(self).warnings@ + pre_w,
                ({
                    let (rts, rws, rlf) = s_lex_from(
                        cs,
                        i as int,
                        LexMode::Normal,
                        buffer@,
                        self.line,
                    );
                    s_lex(cs, line0) == (pre_t + rts, pre_w + rws, rlf)
                }),
            decreases n - i,
        {
            let c = input.get_char(i);
            let ghost cur_line = self.line;
            let ghost cur_buf = buffer@;
            if c == '-' && chars_eq_str(&buffer, "END") {
                buffer.push('-');
                i += 1;
            } else if c == '+' || c == '-' || c == '*' || c == '/' || c == '=' || c == '(' || c
                == ')' || c == ';' {
                self.handle_buffer(&mut buffer);
                let tt = op_type(c);
                let mut lexv: Vec<char> = Vec::new();
                lexv.push(c);
                let lexeme = chars_to_string(&lexv);
                let t = Token::newtok(tt, lexeme, None, self.line, None);
                let ghost mid = self.tokens@;
                self.tokens.push(t);
                proof {
                    assert(lexeme@ =~= seq![c]);
                    lemma_views_push(mid, t);
                    pre_t = pre_t + classify_tokens(cur_buf, cur_line) + seq![t@];
                    pre_w = pre_w + classify_warnings(cur_buf, cur_line);
                    assert(views_of(self.tokens@) =~= views_of(old(self).tokens@) + pre_t);
                    lemma_count_semis_nonneg(cs, i + 1);
                }
                if c == ';' {
                    self.line = self.line + 1;
                }
                i += 1;
                proof {
                    let (rts, rws, rlf) = s_lex_from(
                        cs,
                        i as int,
                        LexMode::Normal,
                        buffer@,
                        self.line,
                    );
                    assert(pre_t + rts =~= s_lex(cs, line0).0);
                    assert(pre_w + rws =~= s_lex(cs, line0).1);
                }
            } else if c == '<' || c == '>' {
                self.handle_buffer(&mut buffer);
                let two = i + 1 < n && input.get_char(i + 1) == '=';
                let mut lexv: Vec<char> = Vec::new();
                lexv.push(c);
                let tt: TokenType = if two {
                    lexv.push('=');
                    if c == '<' {
                        TokenType::LessOrEqual
                    } else {
                        TokenType::GreaterOrEqual
                    }
                } else {
                    if c == '<' {
                        TokenType::LessThan
                    } else {
                        TokenType::GreaterThan
                    }
                };
                let lexeme = chars_to_string(&lexv);
                let t = Token::newtok(tt, lexeme, None, self.line, None);
                let ghost mid = self.tokens@;
                self.tokens.push(t);
                proof {
                    if two {
                        assert(lexeme@ =~= seq![c, '=']);
                    } else {
                        assert(lexeme@ =~= seq![c]);
                    }
                    lemma_views_push(mid, t);
                    pre_t = pre_t + classify_tokens(cur_buf, cur_line) + seq![t@];
                    pre_w = pre_w + classify_warnings(cur_buf, cur_line);
                    assert(views_of(self.tokens@) =~= views_of(old(self).tokens@) + pre_t);
                    lemma_count_semis_mono(cs, i as int, i + (if two {
                        2int
                    } else {
                        1int
                    }));
                }
                i += if two {
                    2
                } else {
                    1
                };
                proof {
                    let (rts, rws, rlf) = s_lex_from(
                        cs,
                        i as int,
                        LexMode::Normal,
                        buffer@,
                        self.line,
                    );
                    assert(pre_t + rts =~= s_lex(cs, line0).0);
                    assert(pre_w + rws =~= s_lex(cs, line0).1);
                }
            } else if c == '"' {
                proof {
                    lemma_instring_is_string_step(cs, i + 1, Seq::empty(), buffer@, self.line);
                }
                let j = self.string_handle(input, i + 1);
                proof {
                    lemma_count_semis_mono(cs, i as int, j as int);
                    let (content_opt, jj) = s_scan(cs, i + 1, Seq::empty());
                    match content_opt {
                        Some(content) => {
                            pre_t = pre_t + seq![
                                TokenV {
                                    token_type: TokenType::String,
                                    lexeme: content,
                                    literal: Some(LiteralV::String(content)),
                                    line: cur_line,
                                    var_type: Some(Type::Str),
                                },
                            ];
                            assert(views_of(self.tokens@) =~= views_of(old(self).tokens@) + pre_t);
                        },
                        None => {
                            pre_w = pre_w + seq![LexWarning::UnterminatedString { line: cur_line }];
                        },
                    }
                    let (rts, rws, rlf) = s_lex_from(
                        cs,
                        j as int,
                        LexMode::Normal,
                        buffer@,
                        self.line,
                    );
                    assert(pre_t + rts =~= s_lex(cs, line0).0);
                    assert(pre_w + rws =~= s_lex(cs, line0).1);
                }
                i = j;
            } else if is_whitespace_char(c) {
                self.handle_buffer(&mut buffer);
                proof {
                    pre_t = pre_t + classify_tokens(cur_buf, cur_line);
                    pre_w = pre_w + classify_warnings(cur_buf, cur_line);
                }
                i += 1;
                proof {
                    let (rts, rws, rlf) = s_lex_from(
                        cs,
                        i as int,
                        LexMode::Normal,
                        buffer@,
                        self.line,
                    );
                    assert(pre_t + rts =~= s_lex(cs, line0).0);
                    assert(pre_w + rws =~= s_lex(cs, line0).1);
                }
            } else if is_alphanumeric_char(c) || c == '_' {
                buffer.push(c);
                i += 1;
            } else {
                self.handle_buffer(&mut buffer);
                proof {
                    pre_t = pre_t + classify_tokens(cur_buf, cur_line);
                    pre_w = pre_w + classify_warnings(cur_buf, cur_line);
                }
                i += 1;
                proof {
                    let (rts, rws, rlf) = s_lex_from(
                        cs,
                        i as int,
                        LexMode::Normal,
                        buffer@,
                        self.line,
                    );
                    assert(pre_t + rts =~= s_lex(cs, line0).0);
                    assert(pre_w + rws =~= s_lex(cs, line0).1);
                }
            }
        }
        self.handle_buffer(&mut buffer);
        proof {
            assert(views_of(self.tokens@) =~= views_of(old(self).tokens@) + s_lex(cs, line0).0);
            assert(self.warnings@ =~= old(self).warnings@ + s_lex(cs, line0).1);
        }
    }

    /// Hands out a copy of the token sequence gathered so far.
    pub fn return_tok(&mut self) -> (r: Vec<Token>)
        ensures
            r@ == final(self).tokens@,
            *final(self) == *old(self),
    {
        let mut r: Vec<Token> = Vec::new();
        let mut k: usize = 0;
        while k < self.tokens.len()
            invariant
                k <= self.tokens@.len(),
                r@ == self.tokens@.take(k as int),
                *self == *old(self),
            decreases self.tokens@.len() - k,
        {
            let t = self.tokens[k].clone();
            r.push(t);
            k += 1;
            proof {
                assert(r@ =~= self.tokens@.take(k as int));
            }
        }
        proof {
            assert(self.tokens@.take(self.tokens@.len() as int) =~= self.tokens@);
        }
        r
    }
}

} // verus!
