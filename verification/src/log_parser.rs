//! Grouping the token stream into log events.
//!
//! A log event is a maximal run of tokens whose only timestamp token, if
//! any, is the first one. The parser buffers tokens and emits the buffer as
//! an event whenever a new timestamp arrives or the stream ends.

use vstd::prelude::*;

use crate::errors::Error;
use crate::lexer::Lexer;
use crate::lexer::Token;
use crate::lexer::TokenType;
use crate::lexer::spec_lexemes;
use crate::lexer::spec_pattern_wired;
use crate::schema::SchemaConfig;

verus! {

/// One log event: its tokens, the 1-based line range it spans, and whether
/// it opens with a timestamp.
pub struct LogEvent {
    pub tokens: Vec<Token>,
    pub line_range: (usize, usize),
    pub has_timestamp: bool,
}

impl LogEvent {
    /// A sound event: at least one token, the line range spanning from the
    /// first token's line to the last one's, every token's line inside it,
    /// and the timestamp flag tracking the first token.
    pub open spec fn wf(self) -> bool {
        &&& self.tokens@.len() >= 1
        &&& self.line_range.0 == self.tokens@[0].line_num
        &&& self.line_range.1 == self.tokens@.last().line_num
        &&& self.line_range.0 <= self.line_range.1
        &&& forall|i: int|
            0 <= i < self.tokens@.len() ==> self.line_range.0 <= (
            #[trigger] self.tokens@[i]).line_num <= self.line_range.1
        &&& (self.has_timestamp <==> self.tokens@[0].token_type is Timestamp)
    }

    /// Wraps a non-empty buffer of line-ordered tokens into an event; an
    /// empty buffer is an internal invariant violation.
    fn new(tokens: Vec<Token>) -> (r: Result<LogEvent, Error>)
        requires
            forall|i: int, j: int|
                0 <= i <= j < tokens@.len() ==> (#[trigger] tokens@[i]).line_num <= (
                #[trigger] tokens@[j]).line_num,
        ensures
            tokens@.len() == 0 <==> r is Err,
            r matches Err(e) ==> e == Error::LogParserInternalErr,
            r matches Ok(ev) ==> ev.wf() && ev.tokens@ == tokens@,
    {
        if tokens.len() == 0 {
            return Err(Error::LogParserInternalErr);
        }
        let has_timestamp = match tokens[0].get_token_type() {
            TokenType::Timestamp(_) => true,
            _ => false,
        };
        let first_line = tokens[0].get_line_num();
        let last_line = tokens[tokens.len() - 1].get_line_num();
        proof {
            assert(tokens@.last() == tokens@[tokens@.len() - 1]);
        }
        Ok(LogEvent { tokens, line_range: (first_line, last_line), has_timestamp })
    }

    /// The opening timestamp token, if the event has one.
    pub fn get_timestamp_token(&self) -> (r: Option<&Token>)
        requires
            self.wf(),
        ensures
            self.has_timestamp ==> (r matches Some(t) && t == &self.tokens@[0]),
            !self.has_timestamp ==> r is None,
    {
        if self.has_timestamp {
            Some(&self.tokens[0])
        } else {
            None
        }
    }

    /// The first and last 1-based line numbers the event spans.
    pub fn get_line_range(&self) -> (r: (usize, usize))
        ensures
            r == self.line_range,
    {
        self.line_range
    }

    /// The message tokens: everything after the timestamp, or all tokens
    /// when the event has none.
    pub fn get_log_message_tokens(&self) -> (r: &[Token])
        requires
            self.wf(),
        ensures
            self.has_timestamp ==> r@ == self.tokens@.subrange(1, self.tokens@.len() as int),
            !self.has_timestamp ==> r@ == self.tokens@,
    {
        if self.has_timestamp {
            vstd::slice::slice_subrange(self.tokens.as_slice(), 1, self.tokens.len())
        } else {
            vstd::slice::slice_subrange(self.tokens.as_slice(), 0, self.tokens.len())
        }
    }
}

/// The log parser: a lexer, the schema it was built from, and the token
/// buffer of the event being assembled.
pub struct LogParser {
    pub lexer: Lexer,
    pub schema_config: SchemaConfig,
    pub tokens: Option<Vec<Token>>,
}

/// The tokens a parser holds buffered; an absent buffer holds none.
pub open spec fn spec_buffered(p: LogParser) -> Seq<Token> {
    match p.tokens {
        Option::Some(buf) => buf@,
        Option::None => Seq::empty(),
    }
}

impl LogParser {
    /// A sound parser: a sound lexer, and a buffer of non-empty ASCII tokens
    /// in line order, never beyond the lexer's line counter, with a timestamp
    /// at most in front.
    pub open spec fn wf(self) -> bool {
        &&& self.lexer.wf()
        &&& match self.tokens {
            Option::Some(buf) => {
                &&& forall|i: int|
                    0 <= i < buf@.len() ==> (#[trigger] buf@[i]).line_num <= self.lexer.line
                &&& forall|i: int, j: int|
                    0 <= i <= j < buf@.len() ==> (#[trigger] buf@[i]).line_num <= (
                    #[trigger] buf@[j]).line_num
                &&& forall|i: int|
                    1 <= i < buf@.len() ==> !((#[trigger] buf@[i]).token_type is Timestamp)
                &&& forall|i: int| 0 <= i < buf@.len() ==> (#[trigger] buf@[i]).lexeme@.len() >= 1
                &&& forall|i: int, j: int|
                    0 <= i < buf@.len() && 0 <= j < buf@[i].lexeme@.len() ==> (
                    #[trigger] buf@[i].lexeme@[j]) < 128
            },
            Option::None => true,
        }
    }

    /// Builds a parser over the schema, compiling every pattern; fails
    /// exactly when a pattern uses an unsupported construct. On success the
    /// parser starts with an empty buffer and empty input, and its automaton
    /// wires every schema pattern from the super-start to its recorded
    /// accept state.
    pub fn new(schema_config: SchemaConfig) -> (r: Result<LogParser, Error>)
        requires
            schema_config.wf(),
        ensures
            r is Ok <==> ((forall|i: int|
                0 <= i < schema_config.spec_ts_schemas().len()
                    ==> crate::compile::spec_ast_supported(
                    (#[trigger] schema_config.spec_ts_schemas()[i]).ast,
                )) && (forall|i: int|
                0 <= i < schema_config.spec_var_schemas().len()
                    ==> crate::compile::spec_ast_supported(
                    (#[trigger] schema_config.spec_var_schemas()[i]).ast,
                ))),
            r matches Ok(p) ==> {
                &&& p.wf()
                &&& p.tokens matches Some(buf) && buf@.len() == 0
                &&& p.lexer.pos == 0
                &&& p.lexer.line == 1
                &&& p.lexer.input@.len() == 0
                &&& p.lexer.num_ts == schema_config.spec_ts_schemas().len()
                &&& p.lexer.pattern_accepts@.len() == schema_config.spec_ts_schemas().len()
                    + schema_config.spec_var_schemas().len()
                &&& p.lexer.delimiters@ == schema_config.delimiters@
                &&& forall|i: int|
                    0 <= i < schema_config.spec_ts_schemas().len() ==> spec_pattern_wired(
                        p.lexer.nfa,
                        (#[trigger] schema_config.spec_ts_schemas()[i]).ast,
                        p.lexer.pattern_accepts@[i].0 as int,
                    )
                &&& forall|i: int|
                    0 <= i < schema_config.spec_var_schemas().len() ==> spec_pattern_wired(
                        p.lexer.nfa,
                        (#[trigger] schema_config.spec_var_schemas()[i]).ast,
                        p.lexer.pattern_accepts@[schema_config.spec_ts_schemas().len() + i].0
                            as int,
                    )
            },
    {
        let lexer = match Lexer::new(&schema_config) {
            Ok(lx) => lx,
            Err(e) => {
                return Err(e);
            },
        };
        Ok(LogParser { lexer, schema_config, tokens: Some(Vec::new()) })
    }

    /// Attaches a byte input: resets the buffer and the lexer.
    pub fn set_input_stream(&mut self, input: Vec<u8>)
        requires
            old(self).wf(),
            input@.len() < usize::MAX,
        ensures
            final(self).wf(),
            final(self).lexer.input@ == input@,
            final(self).lexer.pos == 0,
            final(self).lexer.line == 1,
            final(self).tokens matches Some(buf) && buf@.len() == 0,
    {
        self.tokens = Some(Vec::new());
        self.lexer.set_input_stream(input);
    }

    /// Produces the next log event, or `None` exactly when the stream was
    /// already exhausted with nothing buffered. Every produced event is
    /// sound, no token after its first is a timestamp, its tokens are
    /// non-empty and ASCII, and its bytes are conserved: the event's lexemes
    /// followed by the lexemes still buffered equal the lexemes buffered at
    /// entry followed by the input bytes consumed by this call. Success is
    /// owed whenever the remaining input is ASCII.
    #[verifier::rlimit(100)]
    pub fn parse_next_log_event(&mut self) -> (r: Result<Option<LogEvent>, Error>)
        requires
            old(self).wf(),
        ensures
            final(self).wf(),
            final(self).lexer.same_config(old(self).lexer),
            final(self).lexer.pos >= old(self).lexer.pos,
            (forall|j: int|
                old(self).lexer.pos <= j < old(self).lexer.input@.len() ==> old(
                    self,
                ).lexer.input@[j] < 128) ==> r is Ok,
            r matches Err(e) ==> e == Error::NoneASCIICharacters,
            r matches Ok(o) ==> (o is None <==> (old(self).lexer.pos == old(
                self,
            ).lexer.input@.len() && spec_buffered(*old(self)).len() == 0)),
            r matches Ok(Some(ev)) ==> {
                &&& ev.wf()
                &&& forall|i: int|
                    1 <= i < ev.tokens@.len() ==> !((#[trigger] ev.tokens@[i]).token_type
                        is Timestamp)
                &&& forall|i: int| 0 <= i < ev.tokens@.len() ==> (
                #[trigger] ev.tokens@[i]).lexeme@.len() >= 1
                &&& forall|i: int, j: int|
                    0 <= i < ev.tokens@.len() && 0 <= j < ev.tokens@[i].lexeme@.len() ==> (
                    #[trigger] ev.tokens@[i].lexeme@[j]) < 128
                &&& spec_lexemes(ev.tokens@) + spec_lexemes(spec_buffered(*final(self)))
                    == spec_lexemes(spec_buffered(*old(self))) + old(self).lexer.input@.subrange(
                    old(self).lexer.pos as int,
                    final(self).lexer.pos as int,
                )
                &&& (spec_buffered(*final(self)).len() == 0 || (spec_buffered(
                    *final(self),
                ).len() == 1 && spec_buffered(*final(self))[0].token_type is Timestamp))
            },
    {
        loop
            invariant
                self.wf(),
                self.lexer.same_config(old(self).lexer),
                self.lexer.pos >= old(self).lexer.pos,
                spec_lexemes(spec_buffered(*self)) =~= spec_lexemes(spec_buffered(*old(self)))
                    + old(self).lexer.input@.subrange(
                    old(self).lexer.pos as int,
                    self.lexer.pos as int,
                ),
                spec_buffered(*old(self)).len() > 0 ==> spec_buffered(*self).len() > 0,
                old(self).lexer.pos < self.lexer.pos ==> spec_buffered(*self).len() > 0,
            ensures
                self.lexer.pos == self.lexer.input@.len(),
            decreases self.lexer.input@.len() - self.lexer.pos,
        {
            let ghost self_at_iter = *self;
            let tok = match self.lexer.get_next_token() {
                Ok(Option::Some(tok)) => tok,
                Ok(Option::None) => {
                    break;
                },
                Err(e) => {
                    return Err(e);
                },
            };
            proof {
                lemma_lexemes_push(spec_buffered(*self), tok);
                assert(old(self).lexer.input@.subrange(
                    old(self).lexer.pos as int,
                    self.lexer.pos as int,
                ) =~= old(self).lexer.input@.subrange(
                    old(self).lexer.pos as int,
                    self_at_iter.lexer.pos as int,
                ) + tok.lexeme@);
            }
            let is_ts = match tok.get_token_type() {
                TokenType::Timestamp(_) => true,
                _ => false,
            };
            if is_ts {
                let buffered = match &self.tokens {
                    Option::Some(buf) => buf.len(),
                    Option::None => 0,
                };
                if buffered == 0 {
                    self.buffer_token(tok);
                    continue;
                }
                let ghost pre_emit = *self;
                let event = match self.emit_buffered_tokens_as_log_event() {
                    Ok(ev) => ev,
                    Err(e) => {
                        return Err(e);
                    },
                };
                self.buffer_token(tok);
                proof {
                    lemma_lexemes_push(Seq::empty(), tok);
                    assert(spec_lexemes(Seq::<Token>::empty().push(tok)) =~= tok.lexeme@);
                }
                return Ok(event);
            }
            self.buffer_token(tok);
        }
        let ghost pre_emit = *self;
        let r = self.emit_buffered_tokens_as_log_event();
        proof {
            if spec_buffered(pre_emit).len() > 0 {
                assert(spec_lexemes(spec_buffered(*self)) =~= Seq::<u8>::empty());
                assert(spec_lexemes(spec_buffered(pre_emit)) + spec_lexemes(
                    spec_buffered(*self),
                ) =~= spec_lexemes(spec_buffered(pre_emit)));
            }
        }
        r
    }

    /// Pushes a token onto the buffer, starting a fresh buffer when none is
    /// open.
    fn buffer_token(&mut self, token: Token)
        requires
            old(self).wf(),
            token.line_num <= old(self).lexer.line,
            token.lexeme@.len() >= 1,
            forall|j: int| 0 <= j < token.lexeme@.len() ==> token.lexeme@[j] < 128,
            !(token.token_type is Timestamp) || spec_buffered(*old(self)).len() == 0,
            forall|i: int|
                0 <= i < spec_buffered(*old(self)).len() ==> (#[trigger] spec_buffered(
                    *old(self),
                )[i]).line_num <= token.line_num,
        ensures
            final(self).wf(),
            final(self).lexer == old(self).lexer,
            spec_buffered(*final(self)) == spec_buffered(*old(self)).push(token),
    {
        match &mut self.tokens {
            Option::Some(buf) => {
                buf.push(token);
            },
            Option::None => {
                let mut buf: Vec<Token> = Vec::new();
                buf.push(token);
                self.tokens = Some(buf);
            },
        }
        proof {
            assert(spec_buffered(*self) =~= spec_buffered(*old(self)).push(token));
            let nb = spec_buffered(*self);
            assert forall|i: int| 0 <= i < nb.len() implies (#[trigger] nb[i]).lexeme@.len()
                >= 1 by {
                if i < nb.len() - 1 {
                    assert(nb[i] == spec_buffered(*old(self))[i]);
                }
            }
        }
    }

    /// Takes the buffer and wraps it as an event; an empty or absent buffer
    /// yields no event.
    fn emit_buffered_tokens_as_log_event(&mut self) -> (r: Result<Option<LogEvent>, Error>)
        requires
            old(self).wf(),
        ensures
            final(self).wf(),
            final(self).lexer == old(self).lexer,
            final(self).tokens is None,
            r is Ok,
            spec_buffered(*old(self)).len() == 0 ==> (r matches Ok(o) && o is None),
            spec_buffered(*old(self)).len() > 0 ==> (r matches Ok(Some(ev)) && ev.wf()
                && ev.tokens@ == spec_buffered(*old(self))),
            r matches Ok(Some(ev)) ==> forall|i: int|
                1 <= i < ev.tokens@.len() ==> !((#[trigger] ev.tokens@[i]).token_type
                    is Timestamp),
    {
        let buffer = self.tokens.take();
        match buffer {
            Option::Some(buf) => {
                if buf.len() == 0 {
                    return Ok(None);
                }
                match LogEvent::new(buf) {
                    Ok(ev) => Ok(Some(ev)),
                    Err(e) => {
                        proof {
                            assert(false);
                        }
                        Err(e)
                    },
                }
            },
            Option::None => Ok(None),
        }
    }
}

/// Appending a token appends its bytes to the concatenated lexemes.
proof fn lemma_lexemes_push(toks: Seq<Token>, tok: Token)
    ensures
        spec_lexemes(toks.push(tok)) == spec_lexemes(toks) + tok.lexeme@,
{
    assert(toks.push(tok).drop_last() =~= toks);
    assert(toks.push(tok).last() == tok);
}

/// The bytes of a line heading: the word `Line`, a space, the decimal line
/// number, a colon and a newline.
pub open spec fn spec_line_header(n: nat) -> Seq<u8> {
    seq![76u8, 105u8, 110u8, 101u8, 32u8] + crate::nfa::spec_dec_bytes(n) + seq![58u8, 10u8]
}

/// The rendered message tokens, starting from line `cur`: a fresh line
/// heading whenever a token's line differs from the current one, then the
/// token's bytes between a tab and a newline.
pub open spec fn spec_render_message(toks: Seq<Token>, cur: nat) -> Seq<u8>
    decreases toks.len(),
{
    if toks.len() == 0 {
        Seq::empty()
    } else {
        (if toks[0].line_num != cur {
            spec_line_header(toks[0].line_num as nat)
        } else {
            Seq::empty()
        }) + seq![9u8] + toks[0].lexeme@ + seq![10u8] + spec_render_message(
            toks.skip(1),
            toks[0].line_num as nat,
        )
    }
}

/// The rendered event: a timestamp heading with the timestamp's bytes or the
/// word `NONE`, then the first line's heading, then the message tokens.
pub open spec fn spec_render(ev: LogEvent) -> Seq<u8> {
    seq![84u8, 105u8, 109u8, 101u8, 115u8, 116u8, 97u8, 109u8, 112u8, 58u8, 10u8, 9u8] + (
    if ev.has_timestamp {
        ev.tokens@[0].lexeme@
    } else {
        seq![78u8, 79u8, 78u8, 69u8]
    }) + seq![10u8] + spec_line_header(ev.line_range.0 as nat) + spec_render_message(
        if ev.has_timestamp {
            ev.tokens@.skip(1)
        } else {
            ev.tokens@
        },
        ev.line_range.0 as nat,
    )
}

/// Appends a line heading.
fn push_line_header(out: &mut Vec<u8>, n: usize)
    requires
        forall|m: int| 0 <= m < old(out)@.len() ==> old(out)@[m] < 128,
    ensures
        final(out)@ == old(out)@ + spec_line_header(n as nat),
        forall|m: int| 0 <= m < final(out)@.len() ==> final(out)@[m] < 128,
{
    let ghost before = out@;
    out.push(76);
    out.push(105);
    out.push(110);
    out.push(101);
    out.push(32);
    let digits = crate::nfa::dec_bytes(n);
    let mut d: usize = 0;
    while d < digits.len()
        invariant
            0 <= d <= digits@.len(),
            digits@ == crate::nfa::spec_dec_bytes(n as nat),
            forall|m: int| 0 <= m < digits@.len() ==> 48 <= #[trigger] digits@[m] <= 57,
            out@ == before + seq![76u8, 105u8, 110u8, 101u8, 32u8] + digits@.take(d as int),
            forall|m: int| 0 <= m < before.len() ==> before[m] < 128,
        decreases digits@.len() - d,
    {
        out.push(digits[d]);
        proof {
            assert(digits@.take(d + 1) =~= digits@.take(d as int).push(digits@[d as int]));
            assert(out@ =~= before + seq![76u8, 105u8, 110u8, 101u8, 32u8] + digits@.take(d + 1));
        }
        d = d + 1;
    }
    out.push(58);
    out.push(10);
    proof {
        assert(digits@.take(digits@.len() as int) =~= digits@);
        assert(out@ =~= before + spec_line_header(n as nat));
    }
}

impl LogEvent {
    /// The event rendered as text: the timestamp's bytes or the word `NONE`
    /// under a timestamp heading, then the message tokens grouped under line
    /// headings.
    pub fn render(&self) -> (r: String)
        requires
            self.wf(),
            forall|i: int, j: int|
                0 <= i < self.tokens@.len() && 0 <= j < self.tokens@[i].lexeme@.len() ==> (
                #[trigger] self.tokens@[i].lexeme@[j]) < 128,
        ensures
            r@ == spec_render(*self).map_values(|b: u8| b as char),
    {
        let mut out: Vec<u8> = Vec::new();
        out.push(84);
        out.push(105);
        out.push(109);
        out.push(101);
        out.push(115);
        out.push(116);
        out.push(97);
        out.push(109);
        out.push(112);
        out.push(58);
        out.push(10);
        out.push(9);
        let ghost hdr = out@;
        match self.get_timestamp_token() {
            Some(ts_token) => {
                let lexeme = ts_token.get_lexeme();
                let mut m: usize = 0;
                while m < lexeme.len()
                    invariant
                        0 <= m <= lexeme@.len(),
                        lexeme@ == self.tokens@[0].lexeme@,
                        self.wf(),
                        forall|i: int, j: int|
                            0 <= i < self.tokens@.len() && 0 <= j < self.tokens@[i].lexeme@.len()
                                ==> (#[trigger] self.tokens@[i].lexeme@[j]) < 128,
                        out@ == hdr + lexeme@.take(m as int),
                        forall|k: int| 0 <= k < hdr.len() ==> hdr[k] < 128,
                    decreases lexeme@.len() - m,
                {
                    out.push(lexeme[m]);
                    proof {
                        assert(lexeme@.take(m + 1) =~= lexeme@.take(m as int).push(
                            lexeme@[m as int],
                        ));
                        assert(out@ =~= hdr + lexeme@.take(m + 1));
                    }
                    m = m + 1;
                }
                proof {
                    assert(lexeme@.take(lexeme@.len() as int) =~= lexeme@);
                }
            },
            None => {
                out.push(78);
                out.push(79);
                out.push(78);
                out.push(69);
            },
        }
        out.push(10);
        let (first_line, _) = self.get_line_range();
        proof {
            assert(out@ =~= hdr + (if self.has_timestamp {
                self.tokens@[0].lexeme@
            } else {
                seq![78u8, 79u8, 78u8, 69u8]
            }) + seq![10u8]);
            assert(forall|k: int| 0 <= k < out@.len() ==> out@[k] < 128);
        }
        push_line_header(&mut out, first_line);
        let message = self.get_log_message_tokens();
        let ghost pre_msg = out@;
        proof {
            assert(message@.skip(0) =~= message@);
        }
        let mut i: usize = 0;
        let mut cur: usize = first_line;
        while i < message.len()
            invariant
                0 <= i <= message@.len(),
                forall|k: int, j: int|
                    0 <= k < message@.len() && 0 <= j < message@[k].lexeme@.len() ==> (
                    #[trigger] message@[k].lexeme@[j]) < 128,
                forall|k: int| 0 <= k < pre_msg.len() ==> pre_msg[k] < 128,
                forall|k: int| 0 <= k < out@.len() ==> out@[k] < 128,
                pre_msg + spec_render_message(message@, first_line as nat) =~= out@
                    + spec_render_message(message@.skip(i as int), cur as nat),
            decreases message@.len() - i,
        {
            let tok = vstd::slice::slice_index_get(message, i);
            let ghost pre_tok = out@;
            if tok.get_line_num() != cur {
                push_line_header(&mut out, tok.get_line_num());
            }
            out.push(9);
            let lexeme = tok.get_lexeme();
            let ghost pre_lex = out@;
            let mut m: usize = 0;
            while m < lexeme.len()
                invariant
                    0 <= m <= lexeme@.len(),
                    lexeme@ == message@[i as int].lexeme@,
                    i < message@.len(),
                    forall|k: int, j: int|
                        0 <= k < message@.len() && 0 <= j < message@[k].lexeme@.len() ==> (
                        #[trigger] message@[k].lexeme@[j]) < 128,
                    out@ == pre_lex + lexeme@.take(m as int),
                    forall|k: int| 0 <= k < pre_lex.len() ==> pre_lex[k] < 128,
                decreases lexeme@.len() - m,
            {
                out.push(lexeme[m]);
                proof {
                    assert(lexeme@.take(m + 1) =~= lexeme@.take(m as int).push(lexeme@[m as int]));
                    assert(out@ =~= pre_lex + lexeme@.take(m + 1));
                }
                m = m + 1;
            }
            out.push(10);
            proof {
                assert(lexeme@.take(lexeme@.len() as int) =~= lexeme@);
                let t = message@[i as int];
                assert(out@ =~= pre_tok + (if t.line_num != cur {
                    spec_line_header(t.line_num as nat)
                } else {
                    Seq::<u8>::empty()
                }) + seq![9u8] + t.lexeme@ + seq![10u8]);
                assert(message@.skip(i as int)[0] == t);
                assert(message@.skip(i as int).skip(1) =~= message@.skip(i + 1));
                assert(spec_render_message(message@.skip(i as int), cur as nat) == (if t.line_num
                    != cur {
                    spec_line_header(t.line_num as nat)
                } else {
                    Seq::<u8>::empty()
                }) + seq![9u8] + t.lexeme@ + seq![10u8] + spec_render_message(
                    message@.skip(i + 1),
                    t.line_num as nat,
                ));
                assert(pre_msg + spec_render_message(message@, first_line as nat) =~= out@
                    + spec_render_message(message@.skip(i + 1), t.line_num as nat));
            }
            cur = tok.get_line_num();
            i = i + 1;
        }
        proof {
            assert(message@.skip(message@.len() as int) =~= Seq::<Token>::empty());
            assert(out@ + spec_render_message(
                message@.skip(message@.len() as int),
                cur as nat,
            ) =~= out@);
            assert(out@ =~= pre_msg + spec_render_message(message@, first_line as nat));
            assert(out@ =~= spec_render(*self));
        }
        crate::nfa::ascii_bytes_to_string(out)
    }
}

} // verus!
