use vstd::prelude::*;

use crate::fault::Fault;

verus! {

/// One token of source text.
#[derive(Clone, Debug, PartialEq, Eq)]
pub enum Lexeme {
    OpenParen,
    CloseParen,
    Fn,
    Def,
    Ident(String),
    IntLit(i64),
    StrLit(String),
}

/// The mathematical content of a `Lexeme`.
pub enum Token {
    OpenParen,
    CloseParen,
    Fn,
    Def,
    Ident(Seq<char>),
    IntLit(i64),
    StrLit(Seq<char>),
}

impl View for Lexeme {
    type V = Token;

    open spec fn view(&self) -> Token {
        match self {
            Lexeme::OpenParen => Token::OpenParen,
            Lexeme::CloseParen => Token::CloseParen,
            Lexeme::Fn => Token::Fn,
            Lexeme::Def => Token::Def,
            Lexeme::Ident(s) => Token::Ident(s@),
            Lexeme::IntLit(n) => Token::IntLit(*n),
            Lexeme::StrLit(s) => Token::StrLit(s@),
        }
    }
}

pub open spec fn lexed(r: Option<Result<Lexeme, Fault>>) -> Option<Result<Token, Fault>> {
    match r {
        None => None,
        Some(Ok(l)) => Some(Ok(l@)),
        Some(Err(e)) => Some(Err(e)),
    }
}

pub open spec fn tokens_of(ls: Seq<Lexeme>) -> Seq<Token> {
    ls.map_values(|l: Lexeme| l@)
}

/// ASCII whitespace: space, tab, line feed, form feed, carriage return.
pub open spec fn is_space(c: char) -> bool {
    c == ' ' || c == '\t' || c == '\n' || c == '\x0C' || c == '\r'
}

/// A character that ends a word: whitespace or a parenthesis.
pub open spec fn is_delimiter(c: char) -> bool {
    is_space(c) || c == '(' || c == ')'
}

pub open spec fn is_digit(c: char) -> bool {
    48 <= (c as u32) <= 57
}

pub open spec fn digit_of(c: char) -> int {
    (c as u32) as int - 48
}

/// The value of a string of decimal digits.
pub open spec fn digits_value(d: Seq<char>) -> int
    decreases d.len(),
{
    if d.len() == 0 {
        0
    } else {
        10 * digits_value(d.drop_last()) + digit_of(d.last())
    }
}

pub open spec fn all_digits(d: Seq<char>) -> bool {
    forall|i: int| 0 <= i < d.len() ==> is_digit(#[trigger] d[i])
}

/// A word that starts with a digit stands for an `i64` when it is all digits
/// and its value fits.
pub open spec fn int_literal(d: Seq<char>) -> Result<i64, Fault> {
    if all_digits(d) && digits_value(d) <= i64::MAX {
        Ok(digits_value(d) as i64)
    } else {
        Err(Fault::TokenizeFault)
    }
}

/// First index at or after `i` that is not whitespace.
pub open spec fn skip_space(s: Seq<char>, i: int) -> int
    decreases s.len() - i,
{
    if 0 <= i < s.len() && is_space(s[i]) {
        skip_space(s, i + 1)
    } else {
        i
    }
}

/// First index at or after `i` that holds a delimiter.
pub open spec fn word_end(s: Seq<char>, i: int) -> int
    decreases s.len() - i,
{
    if 0 <= i < s.len() && !is_delimiter(s[i]) {
        word_end(s, i + 1)
    } else {
        i
    }
}

/// First index at or after `i` that holds a double quote.
pub open spec fn quote_end(s: Seq<char>, i: int) -> int
    decreases s.len() - i,
{
    if 0 <= i < s.len() && s[i] != '"' {
        quote_end(s, i + 1)
    } else {
        i
    }
}

pub open spec fn word_token(w: Seq<char>) -> Token {
    if w == seq!['f', 'n'] {
        Token::Fn
    } else if w == seq!['d', 'e', 'f'] {
        Token::Def
    } else {
        Token::Ident(w)
    }
}

/// The token that starts at or after index `i` of `s`, with the index just
/// after it; `None` when only whitespace is left. A string literal runs to
/// the next double quote, or to the end of the text when there is none.
pub open spec fn next_token(s: Seq<char>, i: int) -> Option<(Result<Token, Fault>, int)> {
    let j = skip_space(s, i);
    if !(0 <= j < s.len()) {
        None
    } else if s[j] == '(' {
        Some((Ok(Token::OpenParen), j + 1))
    } else if s[j] == ')' {
        Some((Ok(Token::CloseParen), j + 1))
    } else if s[j] == '"' {
        let k = quote_end(s, j + 1);
        Some((Ok(Token::StrLit(s.subrange(j + 1, k))), if k < s.len() { k + 1 } else { k }))
    } else {
        let k = word_end(s, j);
        let w = s.subrange(j, k);
        if is_digit(s[j]) {
            match int_literal(w) {
                Ok(n) => Some((Ok(Token::IntLit(n)), k)),
                Err(e) => Some((Err(e), k)),
            }
        } else {
            Some((Ok(word_token(w)), k))
        }
    }
}

pub proof fn lemma_skip_space_bounds(s: Seq<char>, i: int)
    requires
        0 <= i,
    ensures
        i <= skip_space(s, i),
        i <= s.len() ==> skip_space(s, i) <= s.len(),
        skip_space(s, i) < s.len() ==> !is_space(s[skip_space(s, i)]),
    decreases s.len() - i,
{
    if 0 <= i < s.len() && is_space(s[i]) {
        lemma_skip_space_bounds(s, i + 1);
    }
}

pub proof fn lemma_word_end_bounds(s: Seq<char>, i: int)
    requires
        0 <= i <= s.len(),
    ensures
        i <= word_end(s, i) <= s.len(),
    decreases s.len() - i,
{
    if i < s.len() && !is_delimiter(s[i]) {
        lemma_word_end_bounds(s, i + 1);
    }
}

pub proof fn lemma_quote_end_bounds(s: Seq<char>, i: int)
    requires
        0 <= i <= s.len(),
    ensures
        i <= quote_end(s, i) <= s.len(),
    decreases s.len() - i,
{
    if i < s.len() && s[i] != '"' {
        lemma_quote_end_bounds(s, i + 1);
    }
}

/// Each token takes up at least one character.
pub proof fn lemma_next_token_advances(s: Seq<char>, i: int)
    requires
        0 <= i,
    ensures
        match next_token(s, i) {
            Some((_, k)) => i < k <= s.len(),
            None => true,
        },
{
    lemma_skip_space_bounds(s, i);
    let j = skip_space(s, i);
    if 0 <= j < s.len() {
        lemma_word_end_bounds(s, j);
        lemma_quote_end_bounds(s, j + 1);
        if s[j] != '(' && s[j] != ')' && s[j] != '"' {
            assert(!is_delimiter(s[j]));
            assert(word_end(s, j) == word_end(s, j + 1));
            lemma_word_end_bounds(s, j + 1);
        }
    }
}

/// All tokens of `s` from index `i` on, or the first fault among them.
pub open spec fn lex_all(s: Seq<char>, i: int) -> Result<Seq<Token>, Fault>
    decreases s.len() - i,
    when 0 <= i
{
    match next_token(s, i) {
        None => Ok(Seq::empty()),
        Some((Err(e), _)) => Err(e),
        Some((Ok(t), k)) => {
            proof {
                lemma_next_token_advances(s, i);
            }
            match lex_all(s, k) {
                Ok(rest) => Ok(seq![t] + rest),
                Err(e) => Err(e),
            }
        },
    }
}

/// Reads tokens one at a time from a text.
pub struct Lexer<'e> {
    input: &'e str,
    chars: Vec<char>,
    pos: usize,
}

impl<'e> Lexer<'e> {
    /// The text being read.
    pub closed spec fn text(&self) -> Seq<char> {
        self.chars@
    }

    /// The index of the next character to read.
    pub closed spec fn position(&self) -> int {
        self.pos as int
    }

    pub closed spec fn wf(&self) -> bool {
        &&& self.chars@ == self.input@
        &&& self.pos <= self.chars.len()
    }

    pub proof fn lemma_position_bounds(&self)
        requires
            self.wf(),
        ensures
            0 <= self.position() <= self.text().len(),
    {
    }

    pub fn new(input: &'e str) -> (r: Lexer<'e>)
        ensures
            r.wf(),
            r.text() == input@,
            r.position() == 0,
    {
        let mut chars: Vec<char> = Vec::new();
        for c in it: input.chars()
            invariant
                it.seq() == input@,
                chars@ == it.seq().subrange(0, it.index() as int),
        {
            chars.push(c);
        }
        assert(chars@ =~= input@);
        Lexer { input, chars, pos: 0 }
    }

    fn skip_space_from(&self, i: usize) -> (j: usize)
        requires
            self.wf(),
            i <= self.chars.len(),
        ensures
            j == skip_space(self.text(), i as int),
            j <= self.chars.len(),
    {
        let mut j = i;
        while j < self.chars.len() && is_ascii_space(self.chars[j])
            invariant
                self.wf(),
                i <= j <= self.chars.len(),
                skip_space(self.text(), i as int) == skip_space(self.text(), j as int),
            decreases self.chars.len() - j,
        {
            j = j + 1;
        }
        j
    }

    fn word_end_from(&self, i: usize) -> (j: usize)
        requires
            self.wf(),
            i <= self.chars.len(),
        ensures
            j == word_end(self.text(), i as int),
            i <= j <= self.chars.len(),
    {
        let mut j = i;
        while j < self.chars.len() && !ends_lexeme(self.chars[j])
            invariant
                self.wf(),
                i <= j <= self.chars.len(),
                word_end(self.text(), i as int) == word_end(self.text(), j as int),
            decreases self.chars.len() - j,
        {
            j = j + 1;
        }
        j
    }

    fn quote_end_from(&self, i: usize) -> (j: usize)
        requires
            self.wf(),
            i <= self.chars.len(),
        ensures
            j == quote_end(self.text(), i as int),
            i <= j <= self.chars.len(),
    {
        let mut j = i;
        while j < self.chars.len() && self.chars[j] != '"'
            invariant
                self.wf(),
                i <= j <= self.chars.len(),
                quote_end(self.text(), i as int) == quote_end(self.text(), j as int),
            decreases self.chars.len() - j,
        {
            j = j + 1;
        }
        j
    }

    /// The value of the word `text[from..to]` as a decimal `i64`.
    fn read_int(&self, from: usize, to: usize) -> (r: Result<i64, Fault>)
        requires
            self.wf(),
            from <= to <= self.chars.len(),
        ensures
            r == int_literal(self.text().subrange(from as int, to as int)),
    {
        let ghost w = self.text().subrange(from as int, to as int);
        let mut acc: i64 = 0;
        let mut i = from;
        while i < to
            invariant
                self.wf(),
                from <= i <= to <= self.chars.len(),
                w == self.text().subrange(from as int, to as int),
                all_digits(w.subrange(0, i - from)),
                acc as int == digits_value(w.subrange(0, i - from)),
                acc >= 0,
            decreases to - i,
        {
            let c = self.chars[i];
            if !is_ascii_digit(c) {
                proof {
                    assert(w[i - from] == c);
                }
                return Err(Fault::TokenizeFault);
            }
            let d = (c as u32 - 48) as i64;
            proof {
                let p = w.subrange(0, i - from);
                let q = w.subrange(0, i + 1 - from);
                assert(q.drop_last() =~= p);
                assert(q.last() == c);
            }
            if acc > (i64::MAX - d) / 10 {
                proof {
                    let q = w.subrange(0, i + 1 - from);
                    assert(digits_value(q) > i64::MAX);
                    lemma_rest_is_digits_or_not(w, i + 1 - from);
                }
                return Err(Fault::TokenizeFault);
            }
            assert(acc * 10 + d <= i64::MAX) by (nonlinear_arith)
                requires
                    0 <= acc <= (i64::MAX - d) / 10,
                    0 <= d <= 9,
            ;
            acc = acc * 10 + d;
            i = i + 1;
            proof {
                let q = w.subrange(0, i - from);
                assert forall|k: int| 0 <= k < q.len() implies is_digit(#[trigger] q[k]) by {
                    if k < q.len() - 1 {
                        assert(q[k] == w.subrange(0, i - 1 - from)[k]);
                    }
                }
            }
        }
        assert(w.subrange(0, to - from) =~= w);
        Ok(acc)
    }
}

pub proof fn lemma_digits_value_grows(d: Seq<char>, m: int)
    requires
        all_digits(d),
        0 <= m <= d.len(),
    ensures
        digits_value(d.subrange(0, m)) <= digits_value(d),
        0 <= digits_value(d.subrange(0, m)),
    decreases d.len(),
{
    if m < d.len() {
        let e = d.drop_last();
        assert(all_digits(e)) by {
            assert forall|k: int| 0 <= k < e.len() implies is_digit(#[trigger] e[k]) by {
                assert(e[k] == d[k]);
            }
        }
        assert(e.subrange(0, m) =~= d.subrange(0, m));
        lemma_digits_value_grows(e, m);
        assert(is_digit(d[d.len() - 1]));
    } else {
        assert(d.subrange(0, m) =~= d);
        if d.len() > 0 {
            let e = d.drop_last();
            assert(all_digits(e)) by {
                assert forall|k: int| 0 <= k < e.len() implies is_digit(#[trigger] e[k]) by {
                    assert(e[k] == d[k]);
                }
            }
            assert(e.subrange(0, e.len() as int) =~= e);
            lemma_digits_value_grows(e, e.len() as int);
            assert(is_digit(d[d.len() - 1]));
        }
    }
}

/// A word whose first `m` characters are digits of a value beyond `i64::MAX`
/// is no `i64` literal, whatever follows.
proof fn lemma_rest_is_digits_or_not(w: Seq<char>, m: int)
    requires
        0 <= m <= w.len(),
        digits_value(w.subrange(0, m)) > i64::MAX,
    ensures
        int_literal(w) == Err::<i64, Fault>(Fault::TokenizeFault),
{
    if all_digits(w) {
        lemma_digits_value_grows(w, m);
    }
}

fn is_ascii_space(c: char) -> (r: bool)
    ensures
        r == is_space(c),
{
    c == ' ' || c == '\t' || c == '\n' || c == '\x0C' || c == '\r'
}

fn is_ascii_digit(c: char) -> (r: bool)
    ensures
        r == is_digit(c),
{
    '0' <= c && c <= '9'
}

/// Whether `c` ends a word: whitespace or a parenthesis.
pub fn ends_lexeme(c: char) -> (r: bool)
    ensures
        r == is_delimiter(c),
{
    is_ascii_space(c) || c == '(' || c == ')'
}

impl<'e> Lexer<'e> {
    /// The lexeme for the word `text[from..to]`, which starts with no digit.
    fn word_lexeme(&self, from: usize, to: usize) -> (r: Lexeme)
        requires
            self.wf(),
            from <= to <= self.chars.len(),
        ensures
            r@ == word_token(self.text().subrange(from as int, to as int)),
    {
        let ghost w = self.text().subrange(from as int, to as int);
        if to - from == 2 && self.chars[from] == 'f' && self.chars[from + 1] == 'n' {
            assert(w =~= seq!['f', 'n']);
            Lexeme::Fn
        } else if to - from == 3 && self.chars[from] == 'd' && self.chars[from + 1] == 'e'
            && self.chars[from + 2] == 'f' {
            assert(w =~= seq!['d', 'e', 'f']);
            assert(w != seq!['f', 'n'] || w.len() == 2);
            Lexeme::Def
        } else {
            proof {
                if w == seq!['f', 'n'] {
                    assert(w[0] == 'f' && w[1] == 'n');
                }
                if w == seq!['d', 'e', 'f'] {
                    assert(w[0] == 'd' && w[1] == 'e' && w[2] == 'f');
                }
            }
            let s = String::from_str(self.input.substring_char(from, to));
            assert(s@ == w);
            Lexeme::Ident(s)
        }
    }

    /// The next token and the index just after it, without moving.
    fn scan(&self) -> (r: (Option<Result<Lexeme, Fault>>, usize))
        requires
            self.wf(),
        ensures
            match next_token(self.text(), self.position()) {
                None => r.0 is None,
                Some((t, k)) => lexed(r.0) == Some(t) && r.1 == k,
            },
    {
        let j = self.skip_space_from(self.pos);
        if j >= self.chars.len() {
            return (None, j);
        }
        let c = self.chars[j];
        if c == '(' {
            return (Some(Ok(Lexeme::OpenParen)), j + 1);
        }
        if c == ')' {
            return (Some(Ok(Lexeme::CloseParen)), j + 1);
        }
        if c == '"' {
            let k = self.quote_end_from(j + 1);
            let s = String::from_str(self.input.substring_char(j + 1, k));
            let next = if k < self.chars.len() {
                k + 1
            } else {
                k
            };
            return (Some(Ok(Lexeme::StrLit(s))), next);
        }
        let k = self.word_end_from(j);
        if is_ascii_digit(c) {
            match self.read_int(j, k) {
                Ok(n) => (Some(Ok(Lexeme::IntLit(n))), k),
                Err(e) => (Some(Err(e)), k),
            }
        } else {
            (Some(Ok(self.word_lexeme(j, k))), k)
        }
    }

    /// The next token, without moving past it.
    pub fn peek_lexeme(&self) -> (r: Option<Result<Lexeme, Fault>>)
        requires
            self.wf(),
        ensures
            lexed(r) == match next_token(self.text(), self.position()) {
                None => None,
                Some((t, _)) => Some(t),
            },
    {
        self.scan().0
    }

    /// Reads the next token; `None` once only whitespace is left. After a
    /// fault the lexer goes on after the offending word.
    pub fn next_lexeme(&mut self) -> (r: Option<Result<Lexeme, Fault>>)
        requires
            old(self).wf(),
        ensures
            final(self).wf(),
            final(self).text() == old(self).text(),
            match next_token(old(self).text(), old(self).position()) {
                None => r is None && final(self).position() == old(self).position(),
                Some((t, k)) => lexed(r) == Some(t) && final(self).position() == k,
            },
    {
        let (r, k) = self.scan();
        if r.is_some() {
            proof {
                lemma_next_token_advances(self.text(), self.position());
            }
            self.pos = k;
        }
        r
    }
}

pub open spec fn glue(ts: Seq<Token>, r: Result<Seq<Token>, Fault>) -> Result<Seq<Token>, Fault> {
    match r {
        Ok(rest) => Ok(ts + rest),
        Err(e) => Err(e),
    }
}

/// All tokens of `input`, or the first fault among them.
pub fn tokenize(input: &str) -> (r: Result<Vec<Lexeme>, Fault>)
    ensures
        match r {
            Ok(v) => lex_all(input@, 0) == Ok::<Seq<Token>, Fault>(tokens_of(v@)),
            Err(e) => lex_all(input@, 0) == Err::<Seq<Token>, Fault>(e),
        },
{
    let mut lexer = Lexer::new(input);
    let mut out: Vec<Lexeme> = Vec::new();
    assert(tokens_of(out@) =~= Seq::<Token>::empty());
    assert(glue(Seq::empty(), lex_all(input@, 0)) =~= lex_all(input@, 0));
    loop
        invariant
            lexer.wf(),
            lexer.text() == input@,
            0 <= lexer.position() <= input@.len(),
            lex_all(input@, 0) == glue(tokens_of(out@), lex_all(input@, lexer.position())),
        decreases input@.len() - lexer.position(),
    {
        let ghost p = lexer.position();
        proof {
            lemma_next_token_advances(input@, p);
        }
        match lexer.next_lexeme() {
            None => {
                assert(tokens_of(out@) + Seq::<Token>::empty() =~= tokens_of(out@));
                return Ok(out);
            },
            Some(Err(e)) => {
                return Err(e);
            },
            Some(Ok(l)) => {
                let ghost before = tokens_of(out@);
                out.push(l);
                proof {
                    assert(tokens_of(out@) =~= before.push(l@));
                    match lex_all(input@, lexer.position()) {
                        Ok(rest) => {
                            assert(before + (seq![l@] + rest) =~= before.push(l@) + rest);
                        },
                        Err(_) => {},
                    }
                }
            },
        }
    }
}

/// The decimal digit for `k`, for `k` below ten.
pub open spec fn digit_char(k: nat) -> char {
    if k == 0 {
        '0'
    } else if k == 1 {
        '1'
    } else if k == 2 {
        '2'
    } else if k == 3 {
        '3'
    } else if k == 4 {
        '4'
    } else if k == 5 {
        '5'
    } else if k == 6 {
        '6'
    } else if k == 7 {
        '7'
    } else if k == 8 {
        '8'
    } else {
        '9'
    }
}

/// The decimal rendering of `n`, with no leading zeros.
pub open spec fn decimal(n: nat) -> Seq<char>
    decreases n,
{
    if n < 10 {
        seq![digit_char(n)]
    } else {
        decimal(n / 10).push(digit_char(n % 10))
    }
}

proof fn lemma_digit_char(k: nat)
    requires
        k < 10,
    ensures
        is_digit(digit_char(k)),
        digit_of(digit_char(k)) == k,
{
}

proof fn lemma_decimal(n: nat)
    ensures
        decimal(n).len() > 0,
        all_digits(decimal(n)),
        digits_value(decimal(n)) == n,
    decreases n,
{
    if n < 10 {
        let d = decimal(n);
        lemma_digit_char(n);
        assert(d.drop_last() =~= Seq::<char>::empty());
        assert(digits_value(Seq::<char>::empty()) == 0);
        assert(d.last() == digit_char(n));
        assert(digits_value(d) == 10 * digits_value(d.drop_last()) + digit_of(d.last()));
    } else {
        lemma_digit_char(n % 10);
        lemma_decimal(n / 10);
        let d = decimal(n);
        assert(d.drop_last() =~= decimal(n / 10));
        assert(d.last() == digit_char(n % 10));
        assert(digits_value(d) == 10 * digits_value(d.drop_last()) + digit_of(d.last()));
        assert(n == 10 * (n / 10) + n % 10);
        assert forall|i: int| 0 <= i < d.len() implies is_digit(#[trigger] d[i]) by {
            if i < d.len() - 1 {
                assert(d[i] == decimal(n / 10)[i]);
            }
        }
    }
}

proof fn lemma_word_end_of_digits(d: Seq<char>, i: int)
    requires
        all_digits(d),
        0 <= i <= d.len(),
    ensures
        word_end(d, i) == d.len(),
    decreases d.len() - i,
{
    if i < d.len() {
        assert(is_digit(d[i]));
        lemma_word_end_of_digits(d, i + 1);
    }
}

/// A text made of decimal digits alone, whose value fits in an `i64`, is the
/// single integer token of that value; leading zeros are allowed.
pub proof fn lemma_lex_digits(d: Seq<char>)
    requires
        d.len() > 0,
        all_digits(d),
        digits_value(d) <= i64::MAX,
    ensures
        lex_all(d, 0) == Ok::<Seq<Token>, Fault>(seq![Token::IntLit(digits_value(d) as i64)]),
{
    assert(is_digit(d[0]));
    assert(skip_space(d, 0) == 0);
    lemma_word_end_of_digits(d, 0);
    assert(d.subrange(0, d.len() as int) =~= d);
    assert(skip_space(d, d.len() as int) == d.len());
    assert(next_token(d, d.len() as int) is None);
    assert(lex_all(d, d.len() as int) == Ok::<Seq<Token>, Fault>(Seq::empty()));
    assert(seq![Token::IntLit(digits_value(d) as i64)] + Seq::<Token>::empty() =~= seq![
        Token::IntLit(digits_value(d) as i64),
    ]);
}

/// Round trip of integer literals: rendering a non-negative `i64` in decimal
/// and tokenizing the text gives back exactly one integer token of the same
/// value.
pub proof fn lemma_int_literal_round_trip(n: i64)
    requires
        0 <= n,
    ensures
        lex_all(decimal(n as nat), 0) == Ok::<Seq<Token>, Fault>(seq![Token::IntLit(n)]),
{
    lemma_decimal(n as nat);
    lemma_lex_digits(decimal(n as nat));
}

} // verus!
