use vstd::prelude::*;

use crate::fault::Fault;
use crate::lexer::{lemma_next_token_advances, next_token, Lexeme, Lexer, Token};
use crate::value::{data_of, lemma_data_of, outcome, Datum, Value};

verus! {

/// How deeply lists may nest. Deeper input is refused with a fault rather
/// than allowed to exhaust the call stack of the parser or the evaluator.
pub const MAX_NESTING: usize = 256;

/// The expression that a single token other than a parenthesis stands for.
/// `true` and `false` are the boolean literals; the keyword `def` stands for
/// the name that heads a binding form; `fn` and a stray `)` are faults.
pub open spec fn atom_datum(t: Token) -> Result<Datum, Fault> {
    match t {
        Token::IntLit(n) => Ok(Datum::Int(n)),
        Token::StrLit(s) => Ok(Datum::Str(s)),
        Token::Ident(w) => if w == seq!['t', 'r', 'u', 'e'] {
            Ok(Datum::Bool(true))
        } else if w == seq!['f', 'a', 'l', 's', 'e'] {
            Ok(Datum::Bool(false))
        } else {
            Ok(Datum::Ident(w))
        },
        Token::Def => Ok(Datum::Ident(seq!['d', 'e', 'f'])),
        _ => Err(Fault::ParseFault),
    }
}

/// The form that starts at or after index `i` of `s`, inside `depth`
/// enclosing lists, with the index just after it; `None` when only whitespace
/// is left. `(` directly followed by `fn` is a fault: functions defined in the
/// language are not supported.
pub open spec fn parse_form(s: Seq<char>, i: int, depth: int) -> Option<(Result<Datum, Fault>, int)>
    decreases s.len() - i, 0int,
    when 0 <= i
{
    match next_token(s, i) {
        None => None,
        Some((Err(e), k)) => Some((Err(e), k)),
        Some((Ok(Token::OpenParen), k)) => {
            proof {
                lemma_next_token_advances(s, i);
            }
            if depth >= MAX_NESTING {
                Some((Err(Fault::NestingTooDeep), k))
            } else {
                match next_token(s, k) {
                    Some((Ok(Token::Fn), k2)) => Some((Err(Fault::ParseFault), k2)),
                    _ => Some(parse_items(s, k, Seq::empty(), depth)),
                }
            }
        },
        Some((Ok(t), k)) => Some((atom_datum(t), k)),
    }
}

/// The rest of a list, inside `depth` enclosing lists, whose elements so far
/// are `acc`, from index `j` of `s` up to and including its closing
/// parenthesis. Running out of text first is a fault.
pub open spec fn parse_items(s: Seq<char>, j: int, acc: Seq<Datum>, depth: int) -> (
    Result<Datum, Fault>,
    int,
)
    decreases s.len() - j, 1int,
    when 0 <= j <= s.len()
{
    match next_token(s, j) {
        None => (Err(Fault::ParseFault), j),
        Some((Ok(Token::CloseParen), k)) => (Ok(Datum::List(acc)), k),
        _ => match parse_form(s, j, depth + 1) {
            Some((Ok(d), k)) => if j < k <= s.len() {
                parse_items(s, k, acc.push(d), depth)
            } else {
                (Err(Fault::ParseFault), k)
            },
            Some((Err(e), k)) => (Err(e), k),
            None => (Err(Fault::ParseFault), j),
        },
    }
}

/// Every form takes up at least one character.
pub proof fn lemma_parse_form_advances(s: Seq<char>, i: int, depth: int)
    requires
        0 <= i,
    ensures
        match parse_form(s, i, depth) {
            Some((_, k)) => i < k <= s.len(),
            None => true,
        },
    decreases s.len() - i, 0int,
{
    lemma_next_token_advances(s, i);
    match next_token(s, i) {
        Some((Ok(Token::OpenParen), k)) => {
            lemma_next_token_advances(s, k);
            match next_token(s, k) {
                Some((Ok(Token::Fn), _)) => {},
                _ => {
                    lemma_parse_items_bounds(s, k, Seq::empty(), depth);
                },
            }
        },
        _ => {},
    }
}

pub proof fn lemma_parse_items_bounds(s: Seq<char>, j: int, acc: Seq<Datum>, depth: int)
    requires
        0 <= j <= s.len(),
    ensures
        j <= parse_items(s, j, acc, depth).1 <= s.len(),
    decreases s.len() - j, 1int,
{
    lemma_next_token_advances(s, j);
    match next_token(s, j) {
        None => {},
        Some((Ok(Token::CloseParen), _)) => {},
        _ => {
            lemma_parse_form_advances(s, j, depth + 1);
            match parse_form(s, j, depth + 1) {
                Some((Ok(d), k)) => {
                    lemma_parse_items_bounds(s, k, acc.push(d), depth);
                },
                _ => {},
            }
        },
    }
}

fn atom_value(l: Lexeme) -> (r: Result<Value, Fault>)
    ensures
        outcome(r) == atom_datum(l@),
{
    match l {
        Lexeme::IntLit(n) => Ok(Value::Int(n)),
        Lexeme::StrLit(s) => Ok(Value::Str(s)),
        Lexeme::Ident(w) => {
            proof {
                reveal_strlit("true");
                reveal_strlit("false");
            }
            let t = String::from_str("true");
            let f = String::from_str("false");
            assert(t@ =~= seq!['t', 'r', 'u', 'e']);
            assert(f@ =~= seq!['f', 'a', 'l', 's', 'e']);
            if w == t {
                Ok(Value::Bool(true))
            } else if w == f {
                Ok(Value::Bool(false))
            } else {
                Ok(Value::Ident(w))
            }
        },
        Lexeme::Def => {
            proof {
                reveal_strlit("def");
            }
            let d = String::from_str("def");
            assert(d@ =~= seq!['d', 'e', 'f']);
            Ok(Value::Ident(d))
        },
        _ => Err(Fault::ParseFault),
    }
}

/// Reads one form from `lexer`, inside `depth` enclosing lists, as
/// `parse_form` says.
fn read_form(lexer: &mut Lexer, depth: usize) -> (r: Option<Result<Value, Fault>>)
    requires
        old(lexer).wf(),
        depth <= MAX_NESTING,
    ensures
        final(lexer).wf(),
        final(lexer).text() == old(lexer).text(),
        match parse_form(old(lexer).text(), old(lexer).position(), depth as int) {
            None => r is None,
            Some((res, k)) => r is Some && outcome(r->0) == res && final(lexer).position() == k,
        },
    decreases old(lexer).text().len() - old(lexer).position(),
{
    let ghost s = lexer.text();
    let ghost i = lexer.position();
    proof {
        lexer.lemma_position_bounds();
        lemma_next_token_advances(s, i);
    }
    let first = lexer.next_lexeme();
    match first {
        None => None,
        Some(Err(e)) => Some(Err(e)),
        Some(Ok(Lexeme::OpenParen)) => {
            let ghost k = lexer.position();
            proof {
                lemma_next_token_advances(s, k);
            }
            if depth >= MAX_NESTING {
                return Some(Err(Fault::NestingTooDeep));
            }
            if let Some(Ok(Lexeme::Fn)) = lexer.peek_lexeme() {
                lexer.next_lexeme();
                return Some(Err(Fault::ParseFault));
            }
            let mut items: Vec<Value> = Vec::new();
            proof {
                lemma_data_of(items@);
                assert(data_of(items@) =~= Seq::<Datum>::empty());
            }
            loop
                invariant
                    lexer.wf(),
                    s == old(lexer).text(),
                    i == old(lexer).position(),
                    lexer.text() == s,
                    0 <= i < k <= lexer.position() <= s.len(),
                    depth < MAX_NESTING,
                    parse_form(s, i, depth as int) == Some(parse_items(s, k, Seq::empty(), depth as int)),
                    parse_items(s, k, Seq::empty(), depth as int) == parse_items(
                        s,
                        lexer.position(),
                        data_of(items@),
                        depth as int,
                    ),
                decreases s.len() - lexer.position(),
            {
                let ghost j = lexer.position();
                proof {
                    lemma_next_token_advances(s, j);
                }
                match lexer.peek_lexeme() {
                    None => {
                        return Some(Err(Fault::ParseFault));
                    },
                    Some(Ok(Lexeme::CloseParen)) => {
                        lexer.next_lexeme();
                        return Some(Ok(Value::List(items)));
                    },
                    _ => {},
                }
                proof {
                    lemma_parse_form_advances(s, j, depth + 1);
                }
                match read_form(lexer, depth + 1) {
                    Some(Ok(v)) => {
                        let ghost before = items@;
                        items.push(v);
                        proof {
                            lemma_data_of(before);
                            lemma_data_of(items@);
                            assert(data_of(items@) =~= data_of(before).push(v@));
                        }
                    },
                    Some(Err(e)) => {
                        return Some(Err(e));
                    },
                    None => {
                        return Some(Err(Fault::ParseFault));
                    },
                }
            }
        },
        Some(Ok(l)) => Some(atom_value(l)),
    }
}

/// Reads a text one top-level form at a time. After a fault it yields nothing
/// more: the rest of the text is not read.
pub struct Parser<'e> {
    lexer: Lexer<'e>,
    stopped: bool,
}

impl<'e> Parser<'e> {
    /// The text being read.
    pub closed spec fn text(&self) -> Seq<char> {
        self.lexer.text()
    }

    /// The index of the next character to read.
    pub closed spec fn position(&self) -> int {
        self.lexer.position()
    }

    /// Whether a fault has ended the reading.
    pub closed spec fn stopped(&self) -> bool {
        self.stopped
    }

    pub closed spec fn wf(&self) -> bool {
        &&& self.lexer.wf()
        &&& 0 <= self.lexer.position() <= self.lexer.text().len()
    }

    /// Whether a fault has ended the reading.
    pub fn is_stopped(&self) -> (r: bool)
        ensures
            r == self.stopped(),
    {
        self.stopped
    }

    pub proof fn lemma_position_bounds(&self)
        requires
            self.wf(),
        ensures
            0 <= self.position() <= self.text().len(),
    {
    }

    pub fn new(input: &'e str) -> (r: Parser<'e>)
        ensures
            r.wf(),
            r.text() == input@,
            r.position() == 0,
            !r.stopped(),
    {
        let lexer = Lexer::new(input);
        proof {
            lexer.lemma_position_bounds();
        }
        Parser { lexer, stopped: false }
    }

    /// The next top-level form; `None` at the end of the text, and after a
    /// fault.
    pub fn next_form(&mut self) -> (r: Option<Result<Value, Fault>>)
        requires
            old(self).wf(),
        ensures
            final(self).wf(),
            final(self).text() == old(self).text(),
            old(self).stopped() ==> r is None && *final(self) == *old(self),
            !old(self).stopped() ==> match parse_form(old(self).text(), old(self).position(), 0) {
                None => r is None,
                Some((res, k)) => {
                    &&& r is Some
                    &&& outcome(r->0) == res
                    &&& final(self).position() == k
                    &&& final(self).stopped() == res is Err
                },
            },
    {
        if self.stopped {
            return None;
        }
        proof {
            lemma_parse_form_advances(self.text(), self.position(), 0);
        }
        let r = read_form(&mut self.lexer, 0);
        proof {
            self.lexer.lemma_position_bounds();
        }
        if let Some(Err(_)) = r {
            self.stopped = true;
        }
        r
    }
}

} // verus!
