//! The executable scanner and its token types.

use vstd::prelude::*;
use vstd::string::StrSliceExecFns;

use crate::scan::classify;
use crate::scan::digit_run_end;
use crate::scan::is_recognized_char;
use crate::scan::kinds_match;
use crate::scan::lemma_digit_run_end_bounds;
use crate::scan::lemma_scan_outcome;
use crate::scan::lemma_splice_init;
use crate::scan::lemma_splice_push;
use crate::scan::lexemes_match;
use crate::scan::scan_from;
use crate::scan::splice_ok;

verus! {

/// The classification of a single character of the input (or of the end of
/// the input).  A token's kind is the classification of the first character
/// of its lexeme; for an integer token the payload is therefore the numeric
/// value of the first digit only, which is advisory — the authoritative
/// value of an integer token is its full lexeme text.
#[derive(Clone, Copy, Debug, PartialEq, Eq, Structural)]
pub enum TokenType {
    /// An ASCII digit, carrying that digit's numeric value (0–9).
    INT(usize),
    /// The addition symbol `+`.
    ADD,
    /// The subtraction symbol `-`.
    MIN,
    /// The multiplication symbol `*`.
    MULT,
    /// The division symbol `/`.
    DIV,
    /// The space character.
    WS,
    /// A character outside the recognized alphabet.
    UNKNOWN,
    /// The end of the input.
    EOF,
}

/// The one scanning error: a character outside the recognized alphabet,
/// together with its character offset in the source.
#[derive(Clone, Copy, Debug, PartialEq, Eq)]
pub struct LexError {
    /// The offending character.
    pub character: char,
    /// The character offset of the offending character in the source.  Every
    /// character before it is in the (ASCII) alphabet, so this is also its
    /// byte offset.
    pub offset: usize,
}

/// A single-pass scanner over one input string.
///
/// A `Scanner` owns its source text, a cursor, and the two parallel output
/// sequences it accumulates: the lexeme of each emitted token and that
/// token's kind.  It is meant to be constructed once per input and run to
/// completion by one call of [`Scanner::tokenize`]; a further call would
/// resume from the current cursor and leave the already-produced output
/// intact.
pub struct Scanner {
    current_position: usize,
    source: String,
    tokens: Vec<String>,
    /// The kind of each emitted token, parallel to the returned lexemes.
    pub token_types: Vec<TokenType>,
}

impl Scanner {
    /// The source text as a sequence of characters.
    pub closed spec fn src(&self) -> Seq<char> {
        self.source@
    }

    /// The cursor: the character offset scanning continues from.
    pub closed spec fn pos(&self) -> int {
        self.current_position as int
    }

    /// The views of the lexemes emitted so far.
    pub closed spec fn lexemes(&self) -> Seq<Seq<char>> {
        self.tokens.deep_view()
    }

    /// The kinds emitted so far: the view of [`Scanner::token_types`].
    pub closed spec fn kinds(&self) -> Seq<TokenType> {
        self.token_types@
    }

    /// The cursor never exceeds the source length, and the two output
    /// sequences stay parallel.
    pub closed spec fn wf(&self) -> bool {
        &&& self.current_position as int <= self.source@.len()
        &&& self.tokens@.len() == self.token_types@.len()
    }

    /// A scanner that has not emitted anything and stands at offset zero.
    pub closed spec fn fresh(&self) -> bool {
        &&& self.current_position == 0
        &&& self.tokens@.len() == 0
        &&& self.token_types@.len() == 0
    }

    /// A fresh scanner over `input`: cursor at zero, no output yet.
    pub fn new(input: &str) -> (r: Scanner)
        ensures
            r.wf(),
            r.fresh(),
            r.src() == input@,
    {
        Scanner {
            current_position: 0,
            source: input.to_owned(),
            tokens: Vec::<String>::new(),
            token_types: Vec::<TokenType>::new(),
        }
    }

    /// Whether the cursor has reached the end of the source.
    fn is_eof(&self) -> (r: bool)
        ensures
            r == (self.pos() >= self.src().len()),
    {
        self.current_position >= self.source.as_str().unicode_len()
    }

    /// The classification of one optional character; it equals the spec
    /// function [`classify`], so the same character always yields the same
    /// kind.
    pub fn recognize(c: Option<char>) -> (t: TokenType)
        ensures
            t == classify(c),
    {
        match c {
            None => TokenType::EOF,
            Some(ch) => {
                let v = ch as u32;
                if 48 <= v && v <= 57 {
                    TokenType::INT((v - 48) as usize)
                } else if ch == '+' {
                    TokenType::ADD
                } else if ch == '-' {
                    TokenType::MIN
                } else if ch == '*' {
                    TokenType::MULT
                } else if ch == '/' {
                    TokenType::DIV
                } else if ch == ' ' {
                    TokenType::WS
                } else {
                    TokenType::UNKNOWN
                }
            },
        }
    }

    /// The character at `position`, or `None` when `position` lies at or
    /// past the end of the source.
    fn get_char_at(&self, position: usize) -> (r: Option<char>)
        ensures
            r == if position < self.src().len() {
                Some(self.src()[position as int])
            } else {
                None::<char>
            },
    {
        if position >= self.source.as_str().unicode_len() {
            return None;
        }
        Some(self.source.as_str().get_char(position))
    }

    /// Emit the token spanning `[start, end)`: append its lexeme and its
    /// kind (the classification of its first character) to the outputs, and
    /// move the cursor to `end`.
    fn produce_token(&mut self, start: usize, end: usize)
        requires
            start < end <= old(self).src().len(),
        ensures
            final(self).src() == old(self).src(),
            final(self).pos() == end,
            final(self).lexemes() == old(self).lexemes().push(
                old(self).src().subrange(start as int, end as int),
            ),
            final(self).token_types@ == old(self).token_types@.push(
                classify(Some(old(self).src()[start as int])),
            ),
            final(self).tokens@.len() == old(self).tokens@.len() + 1,
    {
        let lexeme = self.source.as_str().substring_char(start, end).to_owned();
        self.tokens.push(lexeme);
        let kind = Scanner::recognize(self.get_char_at(start));
        self.token_types.push(kind);
        self.current_position = end;
        proof {
            assert(final(self).lexemes() =~= old(self).lexemes().push(
                old(self).src().subrange(start as int, end as int),
            ));
        }
    }

    /// The length of the maximal digit run starting at `digit_position`:
    /// `digit_position + offset` is the first offset at or after
    /// `digit_position` that holds no digit.
    fn scan_number(&self, digit_position: usize) -> (offset: usize)
        requires
            digit_position <= self.src().len(),
        ensures
            digit_position + offset == digit_run_end(self.src(), digit_position as int),
    {
        let n = self.source.as_str().unicode_len();
        let mut offset: usize = 0;
        loop
            invariant
                n == self.src().len(),
                digit_position + offset <= n,
                digit_run_end(self.src(), digit_position as int) == digit_run_end(
                    self.src(),
                    digit_position + offset,
                ),
            ensures
                digit_position + offset == digit_run_end(self.src(), digit_position as int),
            decreases self.src().len() - digit_position - offset,
        {
            let c = self.get_char_at(digit_position + offset);
            let t = Scanner::recognize(c);
            match t {
                TokenType::INT(_) => {
                    offset = offset + 1;
                },
                _ => {
                    break;
                },
            }
        }
        offset
    }

    /// Run the scan to completion and return the lexemes of all tokens of
    /// the source, in source order; the parallel kinds stand in
    /// [`Scanner::token_types`].  Scanning fails on the first character
    /// outside the alphabet, reporting that character and its offset; the
    /// tokens emitted before it stay in the scanner.
    ///
    /// The result is exactly what the model [`scan_from`] gives on the
    /// source from offset zero, so for a fixed input every run returns the
    /// same token sequence; and it is `Ok` exactly when every character of
    /// the source is in the recognized alphabet.
    pub fn tokenize(&mut self) -> (r: Result<Vec<String>, LexError>)
        requires
            old(self).fresh(),
        ensures
            final(self).wf(),
            final(self).src() == old(self).src(),
            match r {
                Ok(toks) => {
                    &&& scan_from(old(self).src(), 0) matches Ok(spans)
                        && lexemes_match(old(self).src(), spans, toks.deep_view())
                        && kinds_match(old(self).src(), spans, final(self).kinds())
                    &&& final(self).pos() == old(self).src().len()
                },
                Err(e) => scan_from(old(self).src(), 0) == Err::<Seq<(int, int)>, _>(
                    (e.character, e.offset as int),
                ),
            },
            (r is Ok) <==> (forall|p: int|
                0 <= p < old(self).src().len() ==> is_recognized_char(
                    #[trigger] old(self).src()[p],
                )),
    {
        let ghost src0 = self.source@;
        let n = self.source.as_str().unicode_len();
        let ghost mut emitted: Seq<(int, int)> = Seq::empty();
        proof {
            lemma_splice_init(src0);
        }
        loop
            invariant
                src0 == old(self).src(),
                n == src0.len(),
                self.wf(),
                self.src() == src0,
                lexemes_match(src0, emitted, self.lexemes()),
                kinds_match(src0, emitted, self.token_types@),
                splice_ok(src0, emitted, self.pos()),
            ensures
                self.wf(),
                self.src() == src0,
                self.pos() == src0.len(),
                lexemes_match(src0, emitted, self.lexemes()),
                kinds_match(src0, emitted, self.token_types@),
                splice_ok(src0, emitted, self.pos()),
            decreases src0.len() - self.pos(),
        {
            if self.is_eof() {
                break;
            }
            let pos = self.current_position;
            let symbol = self.get_char_at(pos);
            let t = Scanner::recognize(symbol);
            match t {
                TokenType::UNKNOWN => {
                    match symbol {
                        Some(ch) => {
                            proof {
                                assert(scan_from(src0, pos as int) == Err::<
                                    Seq<(int, int)>,
                                    _,
                                >((ch, pos as int)));
                                lemma_scan_outcome(src0, 0);
                                assert(!is_recognized_char(src0[pos as int]));
                            }
                            return Err(LexError { character: ch, offset: pos });
                        },
                        None => {
                            // `pos` is in bounds, so there is a character here.
                            assert(false);
                            break;
                        },
                    }
                },
                TokenType::ADD | TokenType::DIV | TokenType::MIN | TokenType::MULT => {
                    self.produce_token(pos, pos + 1);
                    proof {
                        lemma_splice_push(src0, emitted, pos as int, pos as int + 1);
                        emitted = emitted.push((pos as int, pos as int + 1));
                    }
                },
                TokenType::INT(_) => {
                    let offset_end_number = self.scan_number(pos);
                    proof {
                        lemma_digit_run_end_bounds(src0, pos as int);
                    }
                    let end_position = pos + offset_end_number;
                    self.produce_token(pos, end_position);
                    proof {
                        lemma_splice_push(src0, emitted, pos as int, end_position as int);
                        emitted = emitted.push((pos as int, end_position as int));
                    }
                },
                TokenType::WS => {
                    self.current_position = pos + 1;
                },
                TokenType::EOF => {
                    // The classification of a present character is never EOF.
                    assert(false);
                    break;
                },
            }
        }
        proof {
            assert(emitted + Seq::<(int, int)>::empty() =~= emitted);
            lemma_scan_outcome(src0, 0);
        }
        let result_tokens = clone_tokens(&self.tokens);
        Ok(result_tokens)
    }
}

/// An element-by-element copy of a token list; each copy has the same text.
fn clone_tokens(v: &Vec<String>) -> (r: Vec<String>)
    ensures
        r.deep_view() == v.deep_view(),
{
    let mut r: Vec<String> = Vec::new();
    let mut i: usize = 0;
    while i < v.len()
        invariant
            i <= v@.len(),
            r@.len() == i,
            forall|j: int| 0 <= j < i ==> r@[j] == #[trigger] v@[j],
        decreases v@.len() - i,
    {
        r.push(v[i].clone());
        i = i + 1;
    }
    proof {
        assert(r.deep_view() =~= v.deep_view());
    }
    r
}

} // verus!
