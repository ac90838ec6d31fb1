//! The character-level tokenizer: a finite-state scan over the input with a
//! one-slot pushback buffer, producing a single-pass sequence of tokens.
//!
//! The executable machine is mirrored, step for step, by the specification
//! functions `spec_consume` and `spec_next_loop`; `spec_tokens` folds the
//! machine to the full token sequence that a fresh tokenizer will emit.

use vstd::prelude::*;
use crate::text::char_is_alphabetic;
use crate::text::is_alpha;
use crate::text::push_char;

verus! {

/// The tokenization states: a small subset of the full state space,
/// sufficient for unattributed start and end tags and literal text.
#[derive(Clone, Copy, Debug)]
pub enum State {
    Data,
    TagOpen,
    EndTagOpen,
    TagName,
}

/// An atomic unit of tokenizer output.
#[derive(Debug, PartialEq)]
pub enum HtmlToken {
    Char(char),
    StartTag(String),
    EndTag(String),
    Eof,
}

/// The mathematical value of a token: tag names are character sequences.
pub ghost enum TokenModel {
    Char(char),
    StartTag(Seq<char>),
    EndTag(Seq<char>),
    Eof,
}

impl View for HtmlToken {
    type V = TokenModel;

    open spec fn view(&self) -> TokenModel {
        match self {
            HtmlToken::Char(c) => TokenModel::Char(*c),
            HtmlToken::StartTag(s) => TokenModel::StartTag(s@),
            HtmlToken::EndTag(s) => TokenModel::EndTag(s@),
            HtmlToken::Eof => TokenModel::Eof,
        }
    }
}

/// The token model of an optional token.
pub open spec fn spec_opt_token(o: Option<HtmlToken>) -> Option<TokenModel> {
    match o {
        Some(t) => Some(t@),
        None => None,
    }
}

/// The mathematical state of the tokenizer.
pub ghost struct TokModel {
    pub input: Seq<char>,
    pub state: State,
    pub pos: nat,
    pub current: Option<TokenModel>,
    pub reconsume: bool,
}

/// Well-formedness of a tokenizer state: the cursor stays at most one step
/// past the end, the pushback buffer is only ever set while a tag name is
/// under construction, and in the tag-name state a tag token exists, so that
/// appending a name character can never fail.
pub open spec fn tok_wf(m: TokModel) -> bool {
    &&& m.input.len() < usize::MAX
    &&& m.pos <= m.input.len() + 1
    &&& (m.reconsume ==> 1 <= m.pos && m.pos <= m.input.len() && m.state is TagName)
    &&& (m.state is TagName ==> (m.current matches Some(t) && (t is StartTag || t is EndTag)))
}

/// One character pull: the buffered character if pushback is set, the cursor
/// character otherwise, and the NUL sentinel once the input is exhausted.
pub open spec fn spec_consume(m: TokModel) -> (TokModel, char) {
    if m.reconsume {
        (TokModel { reconsume: false, ..m }, m.input[m.pos - 1])
    } else if m.pos < m.input.len() {
        (TokModel { pos: m.pos + 1, ..m }, m.input[m.pos as int])
    } else {
        (TokModel { pos: m.pos + 1, ..m }, '\0')
    }
}

/// A tokenizer state after beginning a start-tag token: the just-consumed
/// character is pushed back so it becomes the tag name's first letter.
pub open spec fn spec_created_start(m: TokModel) -> TokModel {
    TokModel { reconsume: true, current: Some(TokenModel::StartTag(Seq::empty())), ..m }
}

/// As `spec_created_start`, for an end tag.
pub open spec fn spec_created_end(m: TokModel) -> TokModel {
    TokModel { reconsume: true, current: Some(TokenModel::EndTag(Seq::empty())), ..m }
}

/// The pending tag token with one more name character.
pub open spec fn spec_append_name(cur: Option<TokenModel>, c: char) -> Option<TokenModel> {
    match cur {
        Some(TokenModel::StartTag(n)) => Some(TokenModel::StartTag(n.push(c))),
        Some(TokenModel::EndTag(n)) => Some(TokenModel::EndTag(n.push(c))),
        _ => cur,
    }
}

/// Termination measure for one pull: every step either advances the cursor
/// (worth two) or drains the pushback buffer (worth one).
pub open spec fn tok_measure(m: TokModel) -> nat {
    if m.pos <= m.input.len() + 2 {
        ((m.input.len() + 2 - m.pos) * 2 + (if m.reconsume {
            1int
        } else {
            0int
        })) as nat
    } else {
        0
    }
}

/// One pull of the tokenizer from inside its scan loop: consumes characters
/// until a token is emitted. Mirrors the executable machine exactly.
pub open spec fn spec_next_loop(m: TokModel) -> (TokModel, Option<TokenModel>)
    decreases tok_measure(m),
{
    if !tok_wf(m) || m.pos > m.input.len() {
        (m, None)
    } else {
        let (m1, c) = spec_consume(m);
        if c == '\0' {
            (m1, Some(TokenModel::Eof))
        } else {
            match m.state {
                State::Data => {
                    if c == '<' {
                        spec_next_loop(TokModel { state: State::TagOpen, ..m1 })
                    } else {
                        (m1, Some(TokenModel::Char(c)))
                    }
                },
                State::TagOpen => {
                    if c == '/' {
                        spec_next_loop(TokModel { state: State::EndTagOpen, ..m1 })
                    } else if is_alpha(c) {
                        spec_next_loop(spec_created_start(TokModel { state: State::TagName, ..m1 }))
                    } else if m1.pos >= m1.input.len() {
                        (m1, Some(TokenModel::Eof))
                    } else {
                        spec_next_loop(TokModel { state: State::Data, ..m1 })
                    }
                },
                State::EndTagOpen => {
                    if is_alpha(c) {
                        spec_next_loop(spec_created_end(TokModel { state: State::TagName, ..m1 }))
                    } else if m1.pos >= m1.input.len() {
                        (m1, Some(TokenModel::Eof))
                    } else {
                        spec_next_loop(m1)
                    }
                },
                State::TagName => {
                    if c == '>' {
                        (TokModel { state: State::Data, current: None, ..m1 }, m1.current)
                    } else if is_alpha(c) {
                        spec_next_loop(
                            TokModel { current: spec_append_name(m1.current, c), ..m1 },
                        )
                    } else if m1.pos >= m1.input.len() {
                        (m1, Some(TokenModel::Eof))
                    } else {
                        spec_next_loop(m1)
                    }
                },
            }
        }
    }
}

/// One pull of the tokenizer: nothing once the cursor has passed the end.
pub open spec fn spec_next(m: TokModel) -> (TokModel, Option<TokenModel>) {
    if m.pos > m.input.len() {
        (m, None)
    } else {
        spec_next_loop(m)
    }
}

/// Each emitted token strictly shrinks the measure and preserves
/// well-formedness, so folding the machine terminates.
pub proof fn lemma_next_loop_dec(m: TokModel)
    requires
        tok_wf(m),
        m.pos <= m.input.len(),
    ensures
        tok_wf(spec_next_loop(m).0),
        tok_measure(spec_next_loop(m).0) < tok_measure(m),
        spec_next_loop(m).1 is Some,
    decreases tok_measure(m),
{
    let (m1, c) = spec_consume(m);
    if c == '\0' {
    } else {
        match m.state {
            State::Data => {
                if c == '<' {
                    lemma_next_loop_dec(TokModel { state: State::TagOpen, ..m1 });
                }
            },
            State::TagOpen => {
                if c == '/' {
                    lemma_next_loop_dec(TokModel { state: State::EndTagOpen, ..m1 });
                } else if is_alpha(c) {
                    lemma_next_loop_dec(spec_created_start(TokModel { state: State::TagName, ..m1 }));
                } else if m1.pos >= m1.input.len() {
                } else {
                    lemma_next_loop_dec(TokModel { state: State::Data, ..m1 });
                }
            },
            State::EndTagOpen => {
                if is_alpha(c) {
                    lemma_next_loop_dec(spec_created_end(TokModel { state: State::TagName, ..m1 }));
                } else if m1.pos >= m1.input.len() {
                } else {
                    lemma_next_loop_dec(m1);
                }
            },
            State::TagName => {
                if c == '>' {
                } else if is_alpha(c) {
                    lemma_next_loop_dec(TokModel { current: spec_append_name(m1.current, c), ..m1 });
                } else if m1.pos >= m1.input.len() {
                } else {
                    lemma_next_loop_dec(m1);
                }
            },
        }
    }
}

/// The full sequence of tokens that the machine will emit from state `m`
/// until it reports the end of the sequence.
pub open spec fn spec_tokens(m: TokModel) -> Seq<TokenModel>
    decreases tok_measure(m),
        when tok_wf(m)
        via spec_tokens_dec
{
    if m.pos > m.input.len() {
        Seq::empty()
    } else {
        let (m2, r) = spec_next(m);
        match r {
            None => Seq::empty(),
            Some(t) => seq![t] + spec_tokens(m2),
        }
    }
}

#[via_fn]
proof fn spec_tokens_dec(m: TokModel) {
    if m.pos <= m.input.len() {
        lemma_next_loop_dec(m);
    }
}

/// The tokenizer: an input buffer, a cursor, the scan state, the pending tag
/// token, and the one-slot pushback flag.
pub struct HtmlTokenizer {
    input: Vec<char>,
    state: State,
    pos: usize,
    current_token: Option<HtmlToken>,
    reconsume: bool,
}

impl View for HtmlTokenizer {
    type V = TokModel;

    closed spec fn view(&self) -> TokModel {
        TokModel {
            input: self.input@,
            state: self.state,
            pos: self.pos as nat,
            current: spec_opt_token(self.current_token),
            reconsume: self.reconsume,
        }
    }
}

/// The state of a tokenizer freshly constructed on `input`.
pub open spec fn spec_fresh_tokenizer(input: Seq<char>) -> TokModel {
    TokModel { input: input, state: State::Data, pos: 0, current: None, reconsume: false }
}

impl HtmlTokenizer {
    /// Whether the tokenizer is well-formed; established by `new` and
    /// preserved by every pull.
    pub open spec fn wf(&self) -> bool {
        tok_wf(self@)
    }

    pub fn new(html: String) -> (t: Self)
        requires
            html@.len() < usize::MAX,
        ensures
            t.wf(),
            t@ == spec_fresh_tokenizer(html@),
    {
        let n = html.as_str().unicode_len();
        let mut input: Vec<char> = Vec::new();
        let mut i: usize = 0;
        while i < n
            invariant
                i <= n,
                n == html@.len(),
                input@ == html@.subrange(0, i as int),
            decreases n - i,
        {
            input.push(html.as_str().get_char(i));
            proof {
                assert(input@ =~= html@.subrange(0, i + 1 as int));
            }
            i = i + 1;
        }
        proof {
            assert(input@ =~= html@);
        }
        HtmlTokenizer {
            state: State::Data,
            pos: 0,
            input,
            current_token: None,
            reconsume: false,
        }
    }

    fn is_eof(&self) -> (r: bool)
        ensures
            r == (self@.pos >= self@.input.len()),
    {
        self.pos >= self.input.len()
    }

    fn consume_input(&mut self) -> (c: char)
        requires
            old(self).wf(),
            old(self)@.pos <= old(self)@.input.len(),
        ensures
            (final(self)@, c) == spec_consume(old(self)@),
            final(self)@.input == old(self)@.input,
    {
        if self.reconsume {
            self.reconsume = false;
            self.input[self.pos - 1]
        } else if self.pos < self.input.len() {
            let c = self.input[self.pos];
            self.pos = self.pos + 1;
            c
        } else {
            self.pos = self.pos + 1;
            '\0'
        }
    }

    fn create_start_tag_token(&mut self)
        ensures
            final(self)@ == spec_created_start(old(self)@),
    {
        self.reconsume = true;
        self.current_token = Some(HtmlToken::StartTag(String::new()));
        proof {
            assert(self@ =~= spec_created_start(old(self)@));
        }
    }

    fn create_end_tag_token(&mut self)
        ensures
            final(self)@ == spec_created_end(old(self)@),
    {
        self.reconsume = true;
        self.current_token = Some(HtmlToken::EndTag(String::new()));
        proof {
            assert(self@ =~= spec_created_end(old(self)@));
        }
    }

    fn append_tag_name(&mut self, c: char)
        requires
            old(self)@.current matches Some(t) && (t is StartTag || t is EndTag),
        ensures
            final(self)@ == (TokModel {
                current: spec_append_name(old(self)@.current, c),
                ..old(self)@
            }),
    {
        let tok = self.current_token.take();
        match tok {
            Some(HtmlToken::StartTag(mut name)) => {
                push_char(&mut name, c);
                self.current_token = Some(HtmlToken::StartTag(name));
            },
            Some(HtmlToken::EndTag(mut name)) => {
                push_char(&mut name, c);
                self.current_token = Some(HtmlToken::EndTag(name));
            },
            _ => {
                proof {
                    assert(false);
                }
            },
        }
    }

    /// Pull the next token: `None` once the sequence has ended, one terminal
    /// `Eof` token when the end of input is first detected.
    pub fn next(&mut self) -> (r: Option<HtmlToken>)
        requires
            old(self).wf(),
        ensures
            final(self).wf(),
            spec_next(old(self)@) == (final(self)@, spec_opt_token(r)),
    {
        if self.pos > self.input.len() {
            return None;
        }
        let ghost entry = self@;
        loop
            invariant
                self.wf(),
                self@.pos <= self@.input.len(),
                spec_next_loop(self@) == spec_next_loop(entry),
                entry == old(self)@,
                entry.pos <= entry.input.len(),
            decreases tok_measure(self@),
        {
            let ghost prev = self@;
            let c = self.consume_input();
            if c == '\0' {
                proof {
                    assert(spec_next_loop(prev) == (self@, Some(TokenModel::Eof)));
                }
                return Some(HtmlToken::Eof);
            }
            match self.state {
                State::Data => {
                    if c == '<' {
                        self.state = State::TagOpen;
                        proof {
                            assert(spec_next_loop(prev) == spec_next_loop(self@));
                        }
                    } else {
                        proof {
                            assert(spec_next_loop(prev) == (self@, Some(TokenModel::Char(c))));
                        }
                        return Some(HtmlToken::Char(c));
                    }
                },
                State::TagOpen => {
                    if c == '/' {
                        self.state = State::EndTagOpen;
                        proof {
                            assert(spec_next_loop(prev) == spec_next_loop(self@));
                        }
                    } else if char_is_alphabetic(c) {
                        self.state = State::TagName;
                        self.create_start_tag_token();
                        proof {
                            assert(spec_next_loop(prev) == spec_next_loop(self@));
                        }
                    } else if self.is_eof() {
                        proof {
                            assert(spec_next_loop(prev) == (self@, Some(TokenModel::Eof)));
                        }
                        return Some(HtmlToken::Eof);
                    } else {
                        self.state = State::Data;
                        proof {
                            assert(spec_next_loop(prev) == spec_next_loop(self@));
                        }
                    }
                },
                State::EndTagOpen => {
                    if char_is_alphabetic(c) {
                        self.state = State::TagName;
                        self.create_end_tag_token();
                        proof {
                            assert(spec_next_loop(prev) == spec_next_loop(self@));
                        }
                    } else if self.is_eof() {
                        proof {
                            assert(spec_next_loop(prev) == (self@, Some(TokenModel::Eof)));
                        }
                        return Some(HtmlToken::Eof);
                    } else {
                        proof {
                            assert(spec_next_loop(prev) == spec_next_loop(self@));
                        }
                    }
                },
                State::TagName => {
                    if c == '>' {
                        self.state = State::Data;
                        let r = self.current_token.take();
                        proof {
                            assert(spec_next_loop(prev) == (self@, spec_opt_token(r)));
                        }
                        return r;
                    } else if char_is_alphabetic(c) {
                        self.append_tag_name(c);
                        proof {
                            assert(spec_next_loop(prev) == spec_next_loop(self@));
                        }
                    } else if self.is_eof() {
                        proof {
                            assert(spec_next_loop(prev) == (self@, Some(TokenModel::Eof)));
                        }
                        return Some(HtmlToken::Eof);
                    } else {
                        proof {
                            assert(spec_next_loop(prev) == spec_next_loop(self@));
                        }
                    }
                },
            }
        }
    }
}

/// The token of one literal character.
pub open spec fn char_token(c: char) -> TokenModel {
    TokenModel::Char(c)
}

/// The character token for each character of `s`, in order.
pub open spec fn chars_tokens(s: Seq<char>) -> Seq<TokenModel> {
    Seq::new(s.len(), |i: int| char_token(s[i]))
}

/// From the data state with no pushback, input holding neither '<' nor the
/// NUL character tokenizes to one character token per input character,
/// followed by a single terminal Eof.
pub proof fn lemma_tokens_text_only(m: TokModel)
    requires
        tok_wf(m),
        m.state is Data,
        !m.reconsume,
        m.pos <= m.input.len(),
        forall|i: int|
            m.pos <= i < m.input.len() ==> (#[trigger] m.input[i]) != '<' && m.input[i] != '\0',
    ensures
        spec_tokens(m) == chars_tokens(m.input.skip(m.pos as int)).push(TokenModel::Eof),
    decreases m.input.len() - m.pos,
{
    let (m2, r) = spec_next(m);
    if m.pos == m.input.len() {
        assert(r == Some(TokenModel::Eof));
        assert(m2.pos > m2.input.len());
        assert(tok_wf(m2));
        assert(spec_tokens(m2) =~= Seq::<TokenModel>::empty());
        assert(spec_tokens(m) =~= seq![TokenModel::Eof]);
        assert(m.input.skip(m.pos as int).len() == 0);
        assert(chars_tokens(m.input.skip(m.pos as int)).push(TokenModel::Eof) =~= seq![
            TokenModel::Eof,
        ]);
        assert(spec_tokens(m) == chars_tokens(m.input.skip(m.pos as int)).push(TokenModel::Eof));
    } else {
        let c = m.input[m.pos as int];
        assert(c != '<' && c != '\0');
        assert(r == Some(TokenModel::Char(c)));
        assert(m2 == TokModel { pos: m.pos + 1, ..m });
        assert(tok_wf(m2));
        lemma_tokens_text_only(m2);
        assert(spec_tokens(m) == seq![TokenModel::Char(c)] + spec_tokens(m2));
        let a = m.input.skip(m.pos as int);
        let b = m.input.skip(m.pos + 1int);
        assert(a.len() == m.input.len() - m.pos);
        assert(a[0] == c);
        assert(a.drop_first() =~= b);
        assert(chars_tokens(a).push(TokenModel::Eof) =~= seq![TokenModel::Char(c)]
            + chars_tokens(b).push(TokenModel::Eof));
    }
}

/// One step of `chars_tokens` with the terminal Eof attached: the head is
/// the first character's token and the tail is the rest's tokens.
pub proof fn lemma_chars_tokens_step(s: Seq<char>)
    requires
        s.len() > 0,
    ensures
        chars_tokens(s).len() == s.len(),
        chars_tokens(s).push(TokenModel::Eof).len() == s.len() + 1,
        chars_tokens(s).push(TokenModel::Eof)[0] == TokenModel::Char(s[0]),
        chars_tokens(s).push(TokenModel::Eof).drop_first() == chars_tokens(
            s.drop_first(),
        ).push(TokenModel::Eof),
{
    assert(chars_tokens(s).push(TokenModel::Eof)[0] == char_token(s[0]));
    assert(chars_tokens(s).push(TokenModel::Eof).drop_first() =~= chars_tokens(
        s.drop_first(),
    ).push(TokenModel::Eof));
}

/// Two tokenizer states that differ only by a fixed, already-consumed prefix
/// of the input behave identically from the cursor on.
pub open spec fn shifted(m1: TokModel, m2: TokModel, w: Seq<char>) -> bool {
    &&& m1.input == w + m2.input
    &&& m1.pos == m2.pos + w.len()
    &&& m1.state == m2.state
    &&& m1.current == m2.current
    &&& m1.reconsume == m2.reconsume
}

/// Consuming one character respects the shift relation.
proof fn lemma_consume_shift(m1: TokModel, m2: TokModel, w: Seq<char>)
    requires
        shifted(m1, m2, w),
        tok_wf(m1),
        tok_wf(m2),
    ensures
        shifted(spec_consume(m1).0, spec_consume(m2).0, w),
        spec_consume(m1).1 == spec_consume(m2).1,
{
    assert(m1.input.len() == w.len() + m2.input.len());
    if m1.reconsume {
        assert((w + m2.input)[m1.pos - 1] == m2.input[m2.pos - 1]);
    } else if m1.pos < m1.input.len() {
        assert((w + m2.input)[m1.pos as int] == m2.input[m2.pos as int]);
    }
}

/// One pull of the scan loop respects the shift relation: the same token
/// comes out and the two states stay shifted.
proof fn lemma_next_loop_shift(m1: TokModel, m2: TokModel, w: Seq<char>)
    requires
        shifted(m1, m2, w),
        tok_wf(m1),
        tok_wf(m2),
        m1.pos <= m1.input.len(),
    ensures
        shifted(spec_next_loop(m1).0, spec_next_loop(m2).0, w),
        spec_next_loop(m1).1 == spec_next_loop(m2).1,
    decreases tok_measure(m1),
{
    lemma_consume_shift(m1, m2, w);
    let (m1a, c) = spec_consume(m1);
    let (m2a, c2) = spec_consume(m2);
    assert(c == c2);
    assert(m1.input.len() == w.len() + m2.input.len());
    if c == '\0' {
    } else {
        match m1.state {
            State::Data => {
                if c == '<' {
                    lemma_next_loop_shift(
                        TokModel { state: State::TagOpen, ..m1a },
                        TokModel { state: State::TagOpen, ..m2a },
                        w,
                    );
                }
            },
            State::TagOpen => {
                if c == '/' {
                    lemma_next_loop_shift(
                        TokModel { state: State::EndTagOpen, ..m1a },
                        TokModel { state: State::EndTagOpen, ..m2a },
                        w,
                    );
                } else if is_alpha(c) {
                    lemma_next_loop_shift(
                        spec_created_start(TokModel { state: State::TagName, ..m1a }),
                        spec_created_start(TokModel { state: State::TagName, ..m2a }),
                        w,
                    );
                } else if m1a.pos >= m1a.input.len() {
                } else {
                    lemma_next_loop_shift(
                        TokModel { state: State::Data, ..m1a },
                        TokModel { state: State::Data, ..m2a },
                        w,
                    );
                }
            },
            State::EndTagOpen => {
                if is_alpha(c) {
                    lemma_next_loop_shift(
                        spec_created_end(TokModel { state: State::TagName, ..m1a }),
                        spec_created_end(TokModel { state: State::TagName, ..m2a }),
                        w,
                    );
                } else if m1a.pos >= m1a.input.len() {
                } else {
                    lemma_next_loop_shift(m1a, m2a, w);
                }
            },
            State::TagName => {
                if c == '>' {
                } else if is_alpha(c) {
                    lemma_next_loop_shift(
                        TokModel { current: spec_append_name(m1a.current, c), ..m1a },
                        TokModel { current: spec_append_name(m2a.current, c), ..m2a },
                        w,
                    );
                } else if m1a.pos >= m1a.input.len() {
                } else {
                    lemma_next_loop_shift(m1a, m2a, w);
                }
            },
        }
    }
}

/// The whole token sequence is the same for two shifted states: what was
/// before the cursor never matters again.
pub proof fn lemma_tokens_shift(m1: TokModel, m2: TokModel, w: Seq<char>)
    requires
        shifted(m1, m2, w),
        tok_wf(m1),
        tok_wf(m2),
    ensures
        spec_tokens(m1) == spec_tokens(m2),
    decreases tok_measure(m1),
{
    assert(m1.input.len() == w.len() + m2.input.len());
    if m1.pos > m1.input.len() {
        assert(m2.pos > m2.input.len());
        assert(spec_tokens(m1) =~= Seq::<TokenModel>::empty());
        assert(spec_tokens(m2) =~= Seq::<TokenModel>::empty());
    } else {
        lemma_next_loop_dec(m1);
        lemma_next_loop_dec(m2);
        lemma_next_loop_shift(m1, m2, w);
        let (m1n, r1) = spec_next(m1);
        let (m2n, r2) = spec_next(m2);
        assert(r1 == r2);
        lemma_tokens_shift(m1n, m2n, w);
        assert(spec_tokens(m1) == seq![r1->0] + spec_tokens(m1n));
        assert(spec_tokens(m2) == seq![r2->0] + spec_tokens(m2n));
    }
}

/// In the data state, a run of characters holding neither '<' nor NUL
/// tokenizes to its character tokens, followed by whatever comes after.
pub proof fn lemma_tokens_char_prefix(m: TokModel, k: int)
    requires
        tok_wf(m),
        m.state is Data,
        !m.reconsume,
        m.pos <= k <= m.input.len(),
        forall|i: int|
            m.pos <= i < k ==> (#[trigger] m.input[i]) != '<' && m.input[i] != '\0',
    ensures
        spec_tokens(m) == chars_tokens(m.input.subrange(m.pos as int, k)) + spec_tokens(
            TokModel { pos: k as nat, ..m },
        ),
    decreases k - m.pos,
{
    if m.pos == k {
        assert((TokModel { pos: k as nat, ..m }) == m);
        assert(chars_tokens(m.input.subrange(m.pos as int, k)).len() == 0);
        assert(chars_tokens(m.input.subrange(m.pos as int, k)) + spec_tokens(m) =~= spec_tokens(
            m,
        ));
    } else {
        let c = m.input[m.pos as int];
        assert(c != '<' && c != '\0');
        let m2 = TokModel { pos: (m.pos + 1) as nat, ..m };
        assert(spec_next(m) == (m2, Some(TokenModel::Char(c))));
        assert(tok_wf(m2));
        lemma_tokens_char_prefix(m2, k);
        assert(spec_tokens(m) == seq![TokenModel::Char(c)] + spec_tokens(m2));
        let rest = spec_tokens(TokModel { pos: k as nat, ..m });
        assert((TokModel { pos: k as nat, ..m2 }) == (TokModel { pos: k as nat, ..m }));
        assert(chars_tokens(m.input.subrange(m.pos as int, k)) =~= seq![TokenModel::Char(c)]
            + chars_tokens(m.input.subrange(m.pos + 1int, k)));
        assert(spec_tokens(m) =~= chars_tokens(m.input.subrange(m.pos as int, k)) + rest);
    }
}

} // verus!
