use vstd::prelude::*;
use crate::float_bits::bits_of_dec_text;

verus! {

/// A half-open byte span into the source, for diagnostics.
pub type Span = core::ops::Range<usize>;

/// One token of the surface grammar. A float literal carries the bits of its
/// IEEE-754 double value.
#[derive(Debug, PartialEq)]
pub enum Token {
    LeftParen,
    RightParen,
    LeftBrace,
    RightBrace,
    Pipe,
    PipeStar,
    Colon,
    Identifier(String),
    StringLiteral(String),
    BooleanLiteral(bool),
    IntegerLiteral(i64),
    FloatLiteral(u64),
    Type,
    Paste,
}

/// Mathematical model of a token.
#[verifier::ext_equal]
pub enum TokenModel {
    LeftParen,
    RightParen,
    LeftBrace,
    RightBrace,
    Pipe,
    PipeStar,
    Colon,
    Identifier(Seq<char>),
    StringLiteral(Seq<char>),
    BooleanLiteral(bool),
    IntegerLiteral(i64),
    FloatLiteral(u64),
    Type,
    Paste,
}

pub open spec fn token_model(t: Token) -> TokenModel {
    match t {
        Token::LeftParen => TokenModel::LeftParen,
        Token::RightParen => TokenModel::RightParen,
        Token::LeftBrace => TokenModel::LeftBrace,
        Token::RightBrace => TokenModel::RightBrace,
        Token::Pipe => TokenModel::Pipe,
        Token::PipeStar => TokenModel::PipeStar,
        Token::Colon => TokenModel::Colon,
        Token::Identifier(s) => TokenModel::Identifier(s@),
        Token::StringLiteral(s) => TokenModel::StringLiteral(s@),
        Token::BooleanLiteral(b) => TokenModel::BooleanLiteral(b),
        Token::IntegerLiteral(i) => TokenModel::IntegerLiteral(i),
        Token::FloatLiteral(f) => TokenModel::FloatLiteral(f),
        Token::Type => TokenModel::Type,
        Token::Paste => TokenModel::Paste,
    }
}

impl View for Token {
    type V = TokenModel;

    open spec fn view(&self) -> TokenModel {
        token_model(*self)
    }
}


/// The display form of a token: punctuation and keywords as themselves, an
/// identifier tagged, a string quoted, literals in their written form.
pub open spec fn token_text(m: TokenModel) -> Seq<char> {
    match m {
        TokenModel::LeftParen => "("@,
        TokenModel::RightParen => ")"@,
        TokenModel::LeftBrace => "{"@,
        TokenModel::RightBrace => "}"@,
        TokenModel::Pipe => "|"@,
        TokenModel::PipeStar => "|*"@,
        TokenModel::Colon => ":"@,
        TokenModel::Identifier(s) => "IDENTIFIER<"@ + s + ">"@,
        TokenModel::StringLiteral(s) => "\""@ + s + "\""@,
        TokenModel::BooleanLiteral(b) => if b { "T"@ } else { "F"@ },
        TokenModel::IntegerLiteral(i) => crate::strings::dec_int_chars(i as int),
        TokenModel::FloatLiteral(f) => crate::float_bits::f64_text(f),
        TokenModel::Type => "type"@,
        TokenModel::Paste => "paste"@,
    }
}

impl Token {
    /// Renders the token's display form.
    pub fn display_string(&self) -> (r: String)
        ensures
            r@ == token_text((*self)@),
    {
        match self {
            Token::LeftParen => "(".to_owned(),
            Token::RightParen => ")".to_owned(),
            Token::LeftBrace => "{".to_owned(),
            Token::RightBrace => "}".to_owned(),
            Token::Pipe => "|".to_owned(),
            Token::PipeStar => "|*".to_owned(),
            Token::Colon => ":".to_owned(),
            Token::Identifier(s) => {
                let opened = crate::strings::string_concat("IDENTIFIER<", s.as_str());
                crate::strings::string_concat(opened.as_str(), ">")
            },
            Token::StringLiteral(s) => {
                let opened = crate::strings::string_concat("\"", s.as_str());
                crate::strings::string_concat(opened.as_str(), "\"")
            },
            Token::BooleanLiteral(b) => {
                if *b {
                    "T".to_owned()
                } else {
                    "F".to_owned()
                }
            },
            Token::IntegerLiteral(i) => crate::strings::i64_to_string(*i),
            Token::FloatLiteral(f) => crate::float_bits::double_to_string(*f),
            Token::Type => "type".to_owned(),
            Token::Paste => "paste".to_owned(),
        }
    }
}

// ---------------------------------------------------------------------------
// Character classes of the grammar.

pub open spec fn is_ws(c: char) -> bool {
    c == ' ' || c == '\t' || c == '\n'
}

pub open spec fn is_digit(c: char) -> bool {
    48 <= c as u32 && c as u32 <= 57
}

pub open spec fn digit_val(c: char) -> int {
    c as u32 - 48
}

pub open spec fn is_lower(c: char) -> bool {
    97 <= c as u32 && c as u32 <= 122
}

pub open spec fn is_upper(c: char) -> bool {
    65 <= c as u32 && c as u32 <= 90
}

/// An identifier starts with a lowercase letter or an underscore.
pub open spec fn is_ident_start(c: char) -> bool {
    is_lower(c) || c == '_'
}

/// After its first character an identifier may hold letters, digits and
/// underscores.
pub open spec fn is_ident_cont(c: char) -> bool {
    is_lower(c) || is_upper(c) || is_digit(c) || c == '_'
}

/// How many bytes the character takes in UTF-8.
pub open spec fn char_utf8_len(c: char) -> int {
    if (c as u32) < 0x80 {
        1
    } else if (c as u32) < 0x800 {
        2
    } else if (c as u32) < 0x10000 {
        3
    } else {
        4
    }
}

/// The number of bytes the characters of `s[i..j)` take in UTF-8.
pub open spec fn byte_len(s: Seq<char>, i: int, j: int) -> int
    decreases j - i,
{
    if j <= i || j > s.len() || i < 0 {
        0
    } else {
        byte_len(s, i, j - 1) + char_utf8_len(s[j - 1])
    }
}

// ---------------------------------------------------------------------------
// Greedy scans.

/// The first position at or after `i` that does not hold a digit.
pub open spec fn scan_digits(s: Seq<char>, i: int) -> int
    decreases s.len() - i,
{
    if i < 0 || i >= s.len() {
        i
    } else if is_digit(s[i]) {
        scan_digits(s, i + 1)
    } else {
        i
    }
}

/// The first position at or after `i` that cannot continue an identifier.
pub open spec fn scan_ident(s: Seq<char>, i: int) -> int
    decreases s.len() - i,
{
    if i < 0 || i >= s.len() {
        i
    } else if is_ident_cont(s[i]) {
        scan_ident(s, i + 1)
    } else {
        i
    }
}

/// The position of the closing quote of a string literal whose body starts at
/// `i`, skipping backslash escapes, or nothing when the literal is
/// unterminated.
pub open spec fn scan_string(s: Seq<char>, i: int) -> Option<int>
    decreases s.len() - i,
{
    if i < 0 || i >= s.len() {
        Option::None
    } else if s[i] == '"' {
        Option::Some(i)
    } else if s[i] == '\\' {
        if i + 1 < s.len() {
            scan_string(s, i + 2)
        } else {
            Option::None
        }
    } else {
        scan_string(s, i + 1)
    }
}

/// The value of the decimal digits `s[i..j)`.
pub open spec fn dec_val(s: Seq<char>, i: int, j: int) -> int
    decreases j - i,
{
    if j <= i || j > s.len() || i < 0 {
        0
    } else {
        dec_val(s, i, j - 1) * 10 + digit_val(s[j - 1])
    }
}

// ---------------------------------------------------------------------------
// The lexer, as a function from source characters to tokens with byte spans.
// An entry with no token marks a region the grammar does not recognise.

pub open spec fn clamp_next(s: Seq<char>, i: int, j: int) -> int {
    if j <= i {
        i + 1
    } else if j > s.len() {
        s.len() as int
    } else {
        j
    }
}

/// The tokens from character position `i` on, with `b` the byte position of
/// `i`. Rules are applied greedily, longest match first; whitespace is
/// skipped; keywords and booleans win over identifiers.
pub open spec fn lex_from(s: Seq<char>, i: int, b: int) -> Seq<(Option<TokenModel>, (int, int))>
    decreases s.len() - i,
{
    if i < 0 || i >= s.len() {
        Seq::empty()
    } else {
        let c = s[i];
        if is_ws(c) {
            lex_from(s, i + 1, b + 1)
        } else {
            let (item, j0) = lex_token_at(s, i);
            let j = clamp_next(s, i, j0);
            let b2 = b + byte_len(s, i, j);
            seq![(item, (b, b2))] + lex_from(s, j, b2)
        }
    }
}

/// The token starting at position `i`, which holds a non-whitespace
/// character, and the position just after it. An entry with no token is a
/// one-character (or, for an out-of-range number, token-sized) unrecognised
/// region.
pub open spec fn lex_token_at(s: Seq<char>, i: int) -> (Option<TokenModel>, int) {
    let c = s[i];
    if c == '(' {
        (Option::Some(TokenModel::LeftParen), i + 1)
    } else if c == ')' {
        (Option::Some(TokenModel::RightParen), i + 1)
    } else if c == '{' {
        (Option::Some(TokenModel::LeftBrace), i + 1)
    } else if c == '}' {
        (Option::Some(TokenModel::RightBrace), i + 1)
    } else if c == ':' {
        (Option::Some(TokenModel::Colon), i + 1)
    } else if c == '|' {
        if i + 1 < s.len() && s[i + 1] == '*' {
            (Option::Some(TokenModel::PipeStar), i + 2)
        } else {
            (Option::Some(TokenModel::Pipe), i + 1)
        }
    } else if c == 'T' {
        (Option::Some(TokenModel::BooleanLiteral(true)), i + 1)
    } else if c == 'F' {
        (Option::Some(TokenModel::BooleanLiteral(false)), i + 1)
    } else if c == '"' {
        match scan_string(s, i + 1) {
            Option::Some(q) => (Option::Some(TokenModel::StringLiteral(s.subrange(i + 1, q))), q + 1),
            Option::None => (Option::None, i + 1),
        }
    } else if is_digit(c) || c == '-' {
        lex_number_at(s, i)
    } else if is_ident_start(c) {
        let j = scan_ident(s, i + 1);
        let text = s.subrange(i, j);
        if text == "type"@ {
            (Option::Some(TokenModel::Type), j)
        } else if text == "paste"@ {
            (Option::Some(TokenModel::Paste), j)
        } else {
            (Option::Some(TokenModel::Identifier(text)), j)
        }
    } else if c == '$' {
        if i + 1 < s.len() && is_digit(s[i + 1]) {
            let j = scan_digits(s, i + 1);
            (Option::Some(TokenModel::Identifier(s.subrange(i, j))), j)
        } else if i + 1 < s.len() && s[i + 1] == 'n' {
            (Option::Some(TokenModel::Identifier(s.subrange(i, i + 2))), i + 2)
        } else {
            (Option::None, i + 1)
        }
    } else {
        (Option::None, i + 1)
    }
}

/// A number starting at position `i`: a float when a dot with digits on both
/// sides is present, an integer otherwise. A number the value type cannot
/// hold is an unrecognised region.
pub open spec fn lex_number_at(s: Seq<char>, i: int) -> (Option<TokenModel>, int) {
    let neg = s[i] == '-';
    let ds = if neg { i + 1 } else { i };
    if neg && !(ds < s.len() && is_digit(s[ds])) {
        (Option::None, i + 1)
    } else {
        let j = scan_digits(s, ds);
        if j < s.len() && s[j] == '.' && j + 1 < s.len() && is_digit(s[j + 1]) {
            let k = scan_digits(s, j + 1);
            match bits_of_dec_text(s.subrange(i, k)) {
                Option::Some(bits) => (Option::Some(TokenModel::FloatLiteral(bits)), k),
                Option::None => (Option::None, k),
            }
        } else {
            let mag = dec_val(s, ds, j);
            if neg {
                if mag <= 0x8000_0000_0000_0000 {
                    (Option::Some(TokenModel::IntegerLiteral((-mag) as i64)), j)
                } else {
                    (Option::None, j)
                }
            } else {
                if mag <= 0x7fff_ffff_ffff_ffff {
                    (Option::Some(TokenModel::IntegerLiteral(mag as i64)), j)
                } else {
                    (Option::None, j)
                }
            }
        }
    }
}

/// The model of the lexer's output: tokens and byte spans, an entry with no
/// token for each unrecognised region.
pub open spec fn lex_output_model(out: Seq<(Result<Token, ()>, Span)>) -> Seq<(Option<TokenModel>, (int, int))> {
    out.map_values(|e: (Result<Token, ()>, Span)|
        (match e.0 {
            Result::Ok(t) => Option::Some(token_model(t)),
            Result::Err(u) => Option::<TokenModel>::None,
        }, (e.1.start as int, e.1.end as int)))
}


// ---------------------------------------------------------------------------
// Supporting lemmas.

pub proof fn lemma_byte_len_nonneg(s: Seq<char>, i: int, j: int)
    ensures
        byte_len(s, i, j) >= 0,
        0 <= i <= j <= s.len() ==> byte_len(s, i, j) >= j - i,
    decreases j - i,
{
    if !(j <= i || j > s.len() || i < 0) {
        lemma_byte_len_nonneg(s, i, j - 1);
    }
}

pub proof fn lemma_byte_len_additive(s: Seq<char>, i: int, j: int, k: int)
    requires
        0 <= i <= j <= k <= s.len(),
    ensures
        byte_len(s, i, k) == byte_len(s, i, j) + byte_len(s, j, k),
    decreases k - j,
{
    if k > j {
        lemma_byte_len_additive(s, i, j, k - 1);
    }
}

/// Relies on str::len: the length of the string in bytes, which for UTF-8
/// text is the sum of its characters' encoded lengths.
#[verifier::external_body]
fn source_byte_len(s: &str) -> (r: usize)
    ensures
        r == byte_len(s@, 0, s@.len() as int),
{
    s.len()
}

/// The UTF-8 length of one character, from its code point.
fn utf8_len_exec(c: char) -> (r: usize)
    ensures
        r == char_utf8_len(c),
{
    let u = c as u32;
    if u < 0x80 {
        1
    } else if u < 0x800 {
        2
    } else if u < 0x10000 {
        3
    } else {
        4
    }
}

/// The number of bytes the characters of `chars[i..j)` take in UTF-8.
fn span_byte_len(chars: &Vec<char>, i: usize, j: usize) -> (r: usize)
    requires
        i <= j && j <= chars@.len(),
        byte_len(chars@, 0, chars@.len() as int) <= usize::MAX,
    ensures
        r == byte_len(chars@, i as int, j as int),
{
    let ghost s = chars@;
    proof {
        lemma_byte_len_additive(s, 0, i as int, j as int);
        lemma_byte_len_additive(s, 0, j as int, s.len() as int);
        lemma_byte_len_nonneg(s, 0, i as int);
        lemma_byte_len_nonneg(s, j as int, s.len() as int);
    }
    let mut r: usize = 0;
    let mut p: usize = i;
    while p < j
        invariant
            i <= p <= j && j <= s.len(),
            chars@ == s,
            byte_len(s, 0, s.len() as int) <= usize::MAX,
            r == byte_len(s, i as int, p as int),
            byte_len(s, i as int, j as int) <= usize::MAX,
        decreases j - p,
    {
        proof {
            lemma_byte_len_additive(s, i as int, p as int, p as int + 1);
            lemma_byte_len_additive(s, i as int, p as int + 1, j as int);
            lemma_byte_len_nonneg(s, p as int + 1, j as int);
        }
        r = r + utf8_len_exec(chars[p]);
        p = p + 1;
    }
    r
}

fn is_digit_exec(c: char) -> (r: bool)
    ensures
        r == is_digit(c),
{
    let u = c as u32;
    48 <= u && u <= 57
}

fn is_ident_cont_exec(c: char) -> (r: bool)
    ensures
        r == is_ident_cont(c),
{
    let u = c as u32;
    (97 <= u && u <= 122) || (65 <= u && u <= 90) || (48 <= u && u <= 57) || c == '_'
}

/// The end of the digit run starting at `i`.
fn scan_digits_exec(chars: &Vec<char>, i: usize) -> (r: usize)
    requires
        i <= chars@.len(),
    ensures
        r == scan_digits(chars@, i as int),
        i <= r && r <= chars@.len(),
    decreases chars@.len() - i,
{
    let ghost s = chars@;
    let mut p: usize = i;
    while p < chars.len() && is_digit_exec(chars[p])
        invariant
            i <= p <= s.len(),
            chars@ == s,
            scan_digits(s, i as int) == scan_digits(s, p as int),
        decreases s.len() - p,
    {
        p = p + 1;
    }
    p
}

/// The end of the identifier-continuation run starting at `i`.
fn scan_ident_exec(chars: &Vec<char>, i: usize) -> (r: usize)
    requires
        i <= chars@.len(),
    ensures
        r == scan_ident(chars@, i as int),
        i <= r && r <= chars@.len(),
{
    let ghost s = chars@;
    let mut p: usize = i;
    while p < chars.len() && is_ident_cont_exec(chars[p])
        invariant
            i <= p <= s.len(),
            chars@ == s,
            scan_ident(s, i as int) == scan_ident(s, p as int),
        decreases s.len() - p,
    {
        p = p + 1;
    }
    p
}

/// The characters `chars[i..j)` as a vector.
fn copy_range(chars: &Vec<char>, i: usize, j: usize) -> (r: Vec<char>)
    requires
        i <= j && j <= chars@.len(),
    ensures
        r@ == chars@.subrange(i as int, j as int),
{
    let mut r: Vec<char> = Vec::new();
    let mut p: usize = i;
    while p < j
        invariant
            i <= p <= j && j <= chars@.len(),
            r@ == chars@.subrange(i as int, p as int),
        decreases j - p,
    {
        r.push(chars[p]);
        proof {
            assert(r@ =~= chars@.subrange(i as int, p as int + 1));
        }
        p = p + 1;
    }
    r
}


pub proof fn lemma_scan_digits_props(s: Seq<char>, i: int)
    requires
        0 <= i <= s.len(),
    ensures
        i <= scan_digits(s, i) <= s.len(),
        forall|k: int| i <= k < scan_digits(s, i) ==> is_digit(#[trigger] s[k]),
        scan_digits(s, i) < s.len() ==> !is_digit(s[scan_digits(s, i)]),
    decreases s.len() - i,
{
    if i < s.len() && is_digit(s[i]) {
        lemma_scan_digits_props(s, i + 1);
    }
}

pub proof fn lemma_dec_val_nonneg(s: Seq<char>, i: int, j: int)
    requires
        forall|k: int| i <= k < j ==> is_digit(#[trigger] s[k]),
    ensures
        dec_val(s, i, j) >= 0,
    decreases j - i,
{
    if !(j <= i || j > s.len() || i < 0) {
        lemma_dec_val_nonneg(s, i, j - 1);
    }
}

/// The token starting at a digit or a minus sign.
fn lex_number_exec(chars: &Vec<char>, i: usize) -> (r: (Result<Token, ()>, usize))
    requires
        i < chars@.len(),
        is_digit(chars@[i as int]) || chars@[i as int] == '-',
    ensures
        r.1 as int == lex_number_at(chars@, i as int).1,
        i < r.1 && r.1 <= chars@.len(),
        match r.0 {
            Result::Ok(t) => lex_number_at(chars@, i as int).0 == Option::Some(token_model(t)),
            Result::Err(u) => lex_number_at(chars@, i as int).0 is None,
        },
{
    let ghost s = chars@;
    let n = chars.len();
    let neg = chars[i] == '-';
    let ds = if neg { i + 1 } else { i };
    if neg && (ds >= chars.len() || !is_digit_exec(chars[ds])) {
        return (Result::Err(()), i + 1);
    }
    proof {
        lemma_scan_digits_props(s, ds as int);
    }
    let j = scan_digits_exec(chars, ds);
    proof {
        assert(scan_digits(s, ds as int) == scan_digits(s, ds as int + 1));
        lemma_scan_digits_props(s, ds as int + 1);
        assert(j > ds);
    }
    if j < chars.len() && chars[j] == '.' && j + 1 < chars.len() && is_digit_exec(chars[j + 1]) {
        let k = scan_digits_exec(chars, j + 1);
        proof {
            assert(scan_digits(s, j as int + 1) == scan_digits(s, j as int + 2)) by {
                lemma_scan_digits_props(s, j as int + 1);
            }
            lemma_scan_digits_props(s, j as int + 2);
            assert(k > j + 1);
        }
        let text_vec = copy_range(chars, i, k);
        let text = crate::strings::chars_to_string(&text_vec);
        match crate::float_bits::parse_double(text.as_str()) {
            Option::Some(bits) => (Result::Ok(Token::FloatLiteral(bits)), k),
            Option::None => (Result::Err(()), k),
        }
    } else {
        // accumulate the digit run, watching for overflow of the value type
        let mut acc: u64 = 0;
        let mut too_big = false;
        let mut p: usize = ds;
        while p < j
            invariant
                ds <= p <= j && j <= s.len(),
                chars@ == s,
                forall|k: int| ds <= k < j ==> is_digit(#[trigger] s[k]),
                !too_big ==> acc as int == dec_val(s, ds as int, p as int),
                too_big ==> dec_val(s, ds as int, p as int) > u64::MAX,
            decreases j - p,
        {
            let ghost oldval = dec_val(s, ds as int, p as int);
            proof {
                assert(dec_val(s, ds as int, p as int + 1)
                    == oldval * 10 + digit_val(s[p as int]));
                lemma_dec_val_nonneg(s, ds as int, p as int);
            }
            proof {
                assert(is_digit(s[p as int]));
            }
            let u = chars[p] as u32;
            let d: u64 = ((u - 48) as u64);
            proof {
                assert(d == digit_val(s[p as int]));
                assert(d < 10);
            }
            if too_big {
                proof {
                    assert(oldval * 10 + d as int > u64::MAX) by (nonlinear_arith)
                        requires oldval > u64::MAX, d >= 0;
                }
            } else if acc > (u64::MAX - d) / 10 {
                too_big = true;
                proof {
                    assert(acc as int * 10 + d as int > u64::MAX) by (nonlinear_arith)
                        requires acc > (u64::MAX - d) / 10 >= 0, 0 <= d < 10;
                }
            } else {
                proof {
                    assert(acc as int * 10 + d as int <= u64::MAX) by (nonlinear_arith)
                        requires 0 <= acc <= (u64::MAX - d) / 10, 0 <= d < 10;
                }
                acc = acc * 10 + d;
            }
            p = p + 1;
        }
        let ghost mag = dec_val(s, ds as int, j as int);
        proof {
            lemma_dec_val_nonneg(s, ds as int, j as int);
        }
        if neg {
            if !too_big && acc <= 0x8000_0000_0000_0000 {
                let v: i64 = if acc == 0x8000_0000_0000_0000 {
                    i64::MIN
                } else {
                    -(acc as i64)
                };
                proof {
                    assert(v as int == -mag);
                }
                (Result::Ok(Token::IntegerLiteral(v)), j)
            } else {
                (Result::Err(()), j)
            }
        } else {
            if !too_big && acc <= 0x7fff_ffff_ffff_ffff {
                (Result::Ok(Token::IntegerLiteral(acc as i64)), j)
            } else {
                (Result::Err(()), j)
            }
        }
    }
}

/// The token starting at an identifier-start character: a keyword or an
/// identifier.
fn lex_word_exec(chars: &Vec<char>, i: usize) -> (r: (Token, usize))
    requires
        i < chars@.len(),
        is_ident_start(chars@[i as int]),
    ensures
        lex_token_at(chars@, i as int) == (Option::Some(token_model(r.0)), r.1 as int),
        i < r.1 && r.1 <= chars@.len(),
{
    let ghost s = chars@;
    let n = chars.len();
    let j = scan_ident_exec(chars, i + 1);
    let ghost text = s.subrange(i as int, j as int);
    proof {
        reveal_strlit("type");
        reveal_strlit("paste");
        assert(text.len() == j - i);
        assert forall|k: int| 0 <= k < j - i implies #[trigger] text[k] == s[i + k] by {}
    }
    if j - i == 4
        && chars[i] == 't' && chars[i + 1] == 'y' && chars[i + 2] == 'p' && chars[i + 3] == 'e'
    {
        proof {
            assert(text =~= "type"@);
        }
        (Token::Type, j)
    } else if j - i == 5
        && chars[i] == 'p' && chars[i + 1] == 'a' && chars[i + 2] == 's' && chars[i + 3] == 't'
        && chars[i + 4] == 'e'
    {
        proof {
            assert(text =~= "paste"@);
        }
        (Token::Paste, j)
    } else {
        let text_vec = copy_range(chars, i, j);
        let text_str = crate::strings::chars_to_string(&text_vec);
        proof {
            if text == "type"@ {
                assert(text.len() == 4);
                assert(text[0] == s[i as int] && text[1] == s[i + 1]
                    && text[2] == s[i + 2] && text[3] == s[i + 3]);
                assert(text[0] == 't' && text[1] == 'y' && text[2] == 'p' && text[3] == 'e');
                assert(false);
            }
            if text == "paste"@ {
                assert(text.len() == 5);
                assert(text[0] == s[i as int] && text[1] == s[i + 1] && text[2] == s[i + 2]
                    && text[3] == s[i + 3] && text[4] == s[i + 4]);
                assert(text[0] == 'p' && text[1] == 'a' && text[2] == 's' && text[3] == 't'
                    && text[4] == 'e');
                assert(false);
            }
        }
        (Token::Identifier(text_str), j)
    }
}

/// The token starting at a double quote: a string literal when it is
/// terminated.
fn lex_string_exec(chars: &Vec<char>, i: usize) -> (r: (Result<Token, ()>, usize))
    requires
        i < chars@.len(),
        chars@[i as int] == '"',
    ensures
        r.1 as int == lex_token_at(chars@, i as int).1,
        i < r.1 && r.1 <= chars@.len(),
        match r.0 {
            Result::Ok(t) => lex_token_at(chars@, i as int).0 == Option::Some(token_model(t)),
            Result::Err(u) => lex_token_at(chars@, i as int).0 is None,
        },
{
    let ghost s = chars@;
    let n = chars.len();
    let mut p: usize = i + 1;
    while p < chars.len()
        invariant
            i + 1 <= p <= s.len(),
            chars@ == s,
            s[i as int] == '"',
            scan_string(s, i as int + 1) == scan_string(s, p as int),
        decreases s.len() - p,
    {
        let c = chars[p];
        if c == '"' {
            let text_vec = copy_range(chars, i + 1, p);
            let text_str = crate::strings::chars_to_string(&text_vec);
            return (Result::Ok(Token::StringLiteral(text_str)), p + 1);
        } else if c == '\\' {
            if p + 1 >= chars.len() {
                return (Result::Err(()), i + 1);
            }
            p = p + 2;
        } else {
            p = p + 1;
        }
    }
    (Result::Err(()), i + 1)
}

/// The token starting at a dollar sign: a positional or count parameter.
fn lex_dollar_exec(chars: &Vec<char>, i: usize) -> (r: (Result<Token, ()>, usize))
    requires
        i < chars@.len(),
        chars@[i as int] == '$',
    ensures
        r.1 as int == lex_token_at(chars@, i as int).1,
        i < r.1 && r.1 <= chars@.len(),
        match r.0 {
            Result::Ok(t) => lex_token_at(chars@, i as int).0 == Option::Some(token_model(t)),
            Result::Err(u) => lex_token_at(chars@, i as int).0 is None,
        },
{
    let ghost s = chars@;
    let n = chars.len();
    if i + 1 < chars.len() && is_digit_exec(chars[i + 1]) {
        proof {
            lemma_scan_digits_props(s, i as int + 1);
            assert(scan_digits(s, i as int + 1) == scan_digits(s, i as int + 2));
            lemma_scan_digits_props(s, i as int + 2);
        }
        let j = scan_digits_exec(chars, i + 1);
        let text_vec = copy_range(chars, i, j);
        let text_str = crate::strings::chars_to_string(&text_vec);
        (Result::Ok(Token::Identifier(text_str)), j)
    } else if i + 1 < chars.len() && chars[i + 1] == 'n' {
        let text_vec = copy_range(chars, i, i + 2);
        let text_str = crate::strings::chars_to_string(&text_vec);
        (Result::Ok(Token::Identifier(text_str)), i + 2)
    } else {
        (Result::Err(()), i + 1)
    }
}


/// The token at a non-whitespace position, and the position just after it.
fn lex_token_exec(chars: &Vec<char>, i: usize) -> (r: (Result<Token, ()>, usize))
    requires
        i < chars@.len(),
        !is_ws(chars@[i as int]),
    ensures
        r.1 as int == clamp_next(chars@, i as int, lex_token_at(chars@, i as int).1),
        i < r.1 && r.1 <= chars@.len(),
        match r.0 {
            Result::Ok(t) => lex_token_at(chars@, i as int).0 == Option::Some(token_model(t)),
            Result::Err(u) => lex_token_at(chars@, i as int).0 is None,
        },
{
    let ghost s = chars@;
    let n = chars.len();
    let c = chars[i];
    if c == '(' {
        (Result::Ok(Token::LeftParen), i + 1)
    } else if c == ')' {
        (Result::Ok(Token::RightParen), i + 1)
    } else if c == '{' {
        (Result::Ok(Token::LeftBrace), i + 1)
    } else if c == '}' {
        (Result::Ok(Token::RightBrace), i + 1)
    } else if c == ':' {
        (Result::Ok(Token::Colon), i + 1)
    } else if c == '|' {
        if i + 1 < n && chars[i + 1] == '*' {
            (Result::Ok(Token::PipeStar), i + 2)
        } else {
            (Result::Ok(Token::Pipe), i + 1)
        }
    } else if c == 'T' {
        (Result::Ok(Token::BooleanLiteral(true)), i + 1)
    } else if c == 'F' {
        (Result::Ok(Token::BooleanLiteral(false)), i + 1)
    } else if c == '"' {
        lex_string_exec(chars, i)
    } else if is_digit_exec(c) || c == '-' {
        lex_number_exec(chars, i)
    } else if (97 <= c as u32 && c as u32 <= 122) || c == '_' {
        let (t, j) = lex_word_exec(chars, i);
        (Result::Ok(t), j)
    } else if c == '$' {
        lex_dollar_exec(chars, i)
    } else {
        (Result::Err(()), i + 1)
    }
}

/// Turns source text into tokens with their byte spans. An entry with no
/// token marks a region the grammar does not recognise; lexing continues
/// after it.
pub fn lex(input: &str) -> (r: Vec<(Result<Token, ()>, Span)>)
    ensures
        lex_output_model(r@) == lex_from(input@, 0, 0),
{
    let ghost s = input@;
    let chars = crate::strings::str_to_chars(input);
    let total = source_byte_len(input);
    let mut out: Vec<(Result<Token, ()>, Span)> = Vec::new();
    let mut i: usize = 0;
    let mut b: usize = 0;
    while i < chars.len()
        invariant
            chars@ == s,
            i <= s.len(),
            total == byte_len(s, 0, s.len() as int),
            b == byte_len(s, 0, i as int),
            lex_from(s, 0, 0) == lex_output_model(out@) + lex_from(s, i as int, b as int),
        decreases s.len() - i,
    {
        let c = chars[i];
        if c == ' ' || c == '\t' || c == '\n' {
            proof {
                assert(byte_len(s, 0, i as int + 1) == byte_len(s, 0, i as int) + 1);
                lemma_byte_len_additive(s, 0, i as int + 1, s.len() as int);
                lemma_byte_len_nonneg(s, i as int + 1, s.len() as int);
                assert(lex_from(s, i as int, b as int) == lex_from(s, i as int + 1, b as int + 1));
            }
            i = i + 1;
            b = b + 1;
        } else {
            let (item, j) = lex_token_exec(&chars, i);
            let blen = span_byte_len(&chars, i, j);
            proof {
                lemma_byte_len_additive(s, 0, i as int, j as int);
                lemma_byte_len_additive(s, 0, j as int, s.len() as int);
                lemma_byte_len_nonneg(s, j as int, s.len() as int);
            }
            let end = b + blen;
            let ghost entry_model = (match &item {
                Result::Ok(t) => Option::Some(token_model(*t)),
                Result::Err(u) => Option::<TokenModel>::None,
            }, (b as int, end as int));
            let ghost out0 = out@;
            out.push((item, b..end));
            proof {
                assert(lex_from(s, i as int, b as int)
                    == seq![entry_model] + lex_from(s, j as int, end as int));
                assert(lex_output_model(out@)
                    =~= lex_output_model(out0).push(entry_model));
                assert(lex_output_model(out@) + lex_from(s, j as int, end as int)
                    =~= lex_output_model(out0) + lex_from(s, i as int, b as int));
            }
            i = j;
            b = end;
        }
    }
    proof {
        assert(lex_from(s, i as int, b as int) =~= Seq::<(Option<TokenModel>, (int, int))>::empty());
        assert(lex_output_model(out@) =~= lex_from(s, 0, 0));
    }
    out
}

/// Turns source text into tokens with their byte spans.
pub fn lex_from_string(input: &str) -> (r: Vec<(Result<Token, ()>, Span)>)
    ensures
        lex_output_model(r@) == lex_from(input@, 0, 0),
{
    lex(input)
}

} // verus!
