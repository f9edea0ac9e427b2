//! The lexical analyzer: turns source text into a stream of tokens,
//! skipping whitespace and comments, with arbitrary-depth push-back.
//!
//! Whitespace and identifier characters are the ASCII kinds: the grammar
//! this library recognizes is made of ASCII punctuation, ASCII keywords and
//! ASCII identifiers.

use vstd::prelude::*;

use super::c_tokens::{Identifier, Token, TokenV};

verus! {

/// A whitespace character: space, tab, newline, vertical tab, form feed
/// or carriage return (the ASCII whitespace characters).
pub open spec fn is_space_char(c: char) -> bool {
    c == ' ' || c == '\t' || c == '\n' || c == '\x0b' || c == '\x0c' || c == '\r'
}

/// A character that may continue an identifier-like span: an ASCII letter,
/// an ASCII digit, or an underscore.
pub open spec fn is_ident_char(c: char) -> bool {
    ('a' <= c && c <= 'z') || ('A' <= c && c <= 'Z') || ('0' <= c && c <= '9') || c == '_'
}

/// Position just past the end of a `//` comment that starts the remainder
/// of the text at `i`: just past the next newline, or the end of the text.
pub open spec fn skip_line(s: Seq<char>, i: int) -> int
    decreases s.len() - i,
{
    if i < 0 || i >= s.len() {
        s.len() as int
    } else if s[i] == '\n' {
        i + 1
    } else {
        skip_line(s, i + 1)
    }
}

/// Position just past the `*/` that closes a `/* ... */` comment, scanning
/// from `i` with the previous character at `i - 1`; the end of the text if
/// the comment never closes.
pub open spec fn skip_block(s: Seq<char>, i: int) -> int
    decreases s.len() - i,
{
    if i < 1 || i >= s.len() {
        s.len() as int
    } else if s[i] == '/' && s[i - 1] == '*' {
        i + 1
    } else {
        skip_block(s, i + 1)
    }
}

proof fn lemma_skip_line_bounds(s: Seq<char>, i: int)
    requires
        i <= s.len(),
    ensures
        skip_line(s, i) <= s.len(),
        i <= skip_line(s, i),
    decreases s.len() - i,
{
    if 0 <= i && i < s.len() && s[i] != '\n' {
        lemma_skip_line_bounds(s, i + 1);
    }
}

proof fn lemma_skip_block_bounds(s: Seq<char>, i: int)
    requires
        i <= s.len(),
    ensures
        skip_block(s, i) <= s.len(),
        i <= skip_block(s, i),
    decreases s.len() - i,
{
    if 1 <= i && i < s.len() && !(s[i] == '/' && s[i - 1] == '*') {
        lemma_skip_block_bounds(s, i + 1);
    }
}

/// Whether a `//` comment starts at position `i`.
pub open spec fn line_comment_at(s: Seq<char>, i: int) -> bool {
    0 <= i && i + 1 < s.len() && s[i] == '/' && s[i + 1] == '/'
}

/// Whether a `/*` comment starts at position `i`.
pub open spec fn block_comment_at(s: Seq<char>, i: int) -> bool {
    0 <= i && i + 1 < s.len() && s[i] == '/' && s[i + 1] == '*'
}

/// The first position at or after `i` that holds neither whitespace nor a
/// comment; the end of the text if only whitespace and comments remain.
pub open spec fn scan(s: Seq<char>, i: int) -> int
    decreases s.len() - i,
        when 0 <= i
        via scan_decreases
{
    if i >= s.len() {
        s.len() as int
    } else if is_space_char(s[i]) {
        scan(s, i + 1)
    } else if line_comment_at(s, i) {
        scan(s, skip_line(s, i + 2))
    } else if block_comment_at(s, i) {
        scan(s, skip_block(s, i + 2))
    } else {
        i
    }
}

#[via_fn]
proof fn scan_decreases(s: Seq<char>, i: int) {
    if i < s.len() && !is_space_char(s[i]) {
        if line_comment_at(s, i) {
            lemma_skip_line_bounds(s, i + 2);
        } else if block_comment_at(s, i) {
            lemma_skip_block_bounds(s, i + 2);
        }
    }
}

proof fn lemma_scan_bounds(s: Seq<char>, i: int)
    requires
        0 <= i <= s.len(),
    ensures
        i <= scan(s, i) <= s.len(),
    decreases s.len() - i,
{
    if i < s.len() {
        if is_space_char(s[i]) {
            lemma_scan_bounds(s, i + 1);
        } else if line_comment_at(s, i) {
            lemma_skip_line_bounds(s, i + 2);
            lemma_scan_bounds(s, skip_line(s, i + 2));
        } else if block_comment_at(s, i) {
            lemma_skip_block_bounds(s, i + 2);
            lemma_scan_bounds(s, skip_block(s, i + 2));
        }
    }
}

/// End of the identifier-like span whose characters continue from `i`:
/// the first position at or after `i` holding a non-identifier character.
pub open spec fn ident_end(s: Seq<char>, i: int) -> int
    decreases s.len() - i,
{
    if i < 0 || i >= s.len() {
        s.len() as int
    } else if is_ident_char(s[i]) {
        ident_end(s, i + 1)
    } else {
        i
    }
}

proof fn lemma_ident_end_bounds(s: Seq<char>, i: int)
    requires
        i <= s.len(),
    ensures
        ident_end(s, i) <= s.len(),
        i <= ident_end(s, i),
    decreases s.len() - i,
{
    if 0 <= i && i < s.len() && is_ident_char(s[i]) {
        lemma_ident_end_bounds(s, i + 1);
    }
}

/// The token formed by an identifier-like span of text: an exact match
/// against a reserved word yields that keyword, anything else an identifier
/// carrying the text.
pub open spec fn word_token(w: Seq<char>) -> TokenV {
    if w == "struct"@ {
        TokenV::Struct
    } else if w == "typedef"@ {
        TokenV::Typedef
    } else if w == "class"@ {
        TokenV::Class
    } else if w == "int"@ {
        TokenV::Int
    } else if w == "long"@ {
        TokenV::Long
    } else {
        TokenV::Ident(w)
    }
}

/// The token that starts at position `i` (which must hold neither
/// whitespace nor a comment), with the position just past it.
pub open spec fn classify(s: Seq<char>, i: int) -> (TokenV, int) {
    if s[i] == '{' {
        (TokenV::LBrace, i + 1)
    } else if s[i] == '}' {
        (TokenV::RBrace, i + 1)
    } else if s[i] == ';' {
        (TokenV::Semicolon, i + 1)
    } else if s[i] == '*' {
        (TokenV::Star, i + 1)
    } else {
        let e = ident_end(s, i + 1);
        (word_token(s.subrange(i, e)), e)
    }
}

/// The next token of the text at or after position `i`, with the position
/// just past it; `None` when only whitespace and comments remain.
pub open spec fn token_at(s: Seq<char>, i: int) -> Option<(TokenV, int)> {
    let j = scan(s, i);
    if j >= s.len() {
        None
    } else {
        Some(classify(s, j))
    }
}

proof fn lemma_token_at_advances(s: Seq<char>, i: int)
    requires
        0 <= i,
        token_at(s, i) is Some,
    ensures
        i < token_at(s, i)->Some_0.1 <= s.len(),
{
    if i >= s.len() {
        assert(scan(s, i) == s.len());
    }
    lemma_scan_bounds(s, i);
    let j = scan(s, i);
    lemma_ident_end_bounds(s, j + 1);
}

/// The whole token sequence of the text from position `i` on.
pub open spec fn spec_tokens(s: Seq<char>, i: int) -> Seq<TokenV>
    decreases s.len() - i,
        when 0 <= i
        via spec_tokens_decreases
{
    match token_at(s, i) {
        None => Seq::empty(),
        Some((t, k)) => seq![t] + spec_tokens(s, k),
    }
}

#[via_fn]
proof fn spec_tokens_decreases(s: Seq<char>, i: int) {
    if token_at(s, i) is Some {
        lemma_token_at_advances(s, i);
    }
}

/// A token a scan of source text can produce: an identifier always
/// carries at least one character, since an identifier-like span starts
/// with the character at the cursor.
pub open spec fn token_wf(t: TokenV) -> bool {
    match t {
        TokenV::Ident(v) => v.len() > 0,
        _ => true,
    }
}

/// Every identifier token of the stream carries non-empty text.
pub open spec fn tokens_wf(ts: Seq<TokenV>) -> bool {
    forall|k: int| 0 <= k < ts.len() ==> token_wf(#[trigger] ts[k])
}

/// The token stream of any source text is well-formed: no scan produces
/// an empty identifier.
pub proof fn lemma_tokens_wf_of_text(s: Seq<char>, i: int)
    requires
        0 <= i,
    ensures
        tokens_wf(spec_tokens(s, i)),
    decreases s.len() - i,
{
    match token_at(s, i) {
        None => {
            assert(tokens_wf(Seq::<TokenV>::empty()));
        },
        Some((t, k)) => {
            if i >= s.len() {
                assert(scan(s, i) == s.len());
            }
            lemma_token_at_advances(s, i);
            lemma_scan_bounds(s, i);
            let j = scan(s, i);
            lemma_ident_end_bounds(s, j + 1);
            assert(token_wf(t)) by {
                if !(s[j] == '{' || s[j] == '}' || s[j] == ';' || s[j] == '*') {
                    let e = ident_end(s, j + 1);
                    assert(e >= j + 1);
                    assert(s.subrange(j, e).len() >= 1);
                }
            }
            lemma_tokens_wf_of_text(s, k);
            let rest = spec_tokens(s, k);
            assert forall|m: int| 0 <= m < (seq![t] + rest).len() implies token_wf(
                #[trigger] (seq![t] + rest)[m],
            ) by {
                if m > 0 {
                    assert((seq![t] + rest)[m] == rest[m - 1]);
                }
            }
        },
    }
}

/// The token stream that a push-back stack holds, in the order it will be
/// produced: the top of the stack (the last element) comes first.
pub open spec fn pushback_stream(v: Seq<Token>) -> Seq<TokenV>
    decreases v.len(),
{
    if v.len() == 0 {
        Seq::empty()
    } else {
        seq![v.last()@] + pushback_stream(v.drop_last())
    }
}

/// Whether a whitespace character (exec twin of `is_space_char`).
fn space_char(c: char) -> (b: bool)
    ensures
        b == is_space_char(c),
{
    c == ' ' || c == '\t' || c == '\n' || c == '\x0b' || c == '\x0c' || c == '\r'
}

/// Whether an identifier character (exec twin of `is_ident_char`).
fn ident_char(c: char) -> (b: bool)
    ensures
        b == is_ident_char(c),
{
    ('a' <= c && c <= 'z') || ('A' <= c && c <= 'Z') || ('0' <= c && c <= '9') || c == '_'
}

/// Whether two string slices hold the same characters.
fn str_eq(a: &str, b: &str) -> (r: bool)
    ensures
        r == (a@ == b@),
{
    let x = String::from_str(a);
    let y = String::from_str(b);
    x == y
}

/// The tokenizer: a cursor over the source text together with a stack of
/// pushed-back tokens.
pub struct TokenItr<'a> {
    text: &'a str,
    pos: usize,
    pushed_back_tokens: Vec<Token>,
}

impl<'a> TokenItr<'a> {
    /// The cursor never points past the end of the text.
    pub closed spec fn wf(self) -> bool {
        self.pos <= self.text@.len()
    }

    /// The source text this tokenizer reads.
    pub closed spec fn src(self) -> Seq<char> {
        self.text@
    }

    /// The tokens this tokenizer has yet to produce: first whatever was
    /// pushed back, then the tokens of the text from the cursor on.
    pub closed spec fn stream(self) -> Seq<TokenV> {
        pushback_stream(self.pushed_back_tokens@) + spec_tokens(self.text@, self.pos as int)
    }

    /// A fresh tokenizer over `text` produces exactly the tokens of `text`.
    pub fn new(text: &'a str) -> (r: TokenItr<'a>)
        ensures
            r.wf(),
            r.src() == text@,
            r.stream() == spec_tokens(text@, 0),
    {
        let r = TokenItr { text, pos: 0, pushed_back_tokens: Vec::new() };
        proof {
            assert(r.stream() =~= spec_tokens(text@, 0));
        }
        r
    }

    /// Returns `tok` to the front of the stream: the next production call
    /// will produce it again.
    pub fn push_back(&mut self, tok: Token)
        requires
            old(self).wf(),
        ensures
            final(self).wf(),
            final(self).src() == old(self).src(),
            final(self).stream() == seq![tok@] + old(self).stream(),
    {
        let ghost t = tok@;
        self.pushed_back_tokens.push(tok);
        proof {
            let v0 = old(self).pushed_back_tokens@;
            let v1 = self.pushed_back_tokens@;
            assert(v1.last() == v0.push(tok).last());
            assert(v1.drop_last() =~= v0);
            assert(self.stream() =~= seq![t] + old(self).stream());
        }
    }

    /// Produces the next token, or `None` once only whitespace and
    /// comments remain: first from the push-back stack, otherwise by
    /// scanning the text.
    pub fn next(&mut self) -> (r: Option<Token>)
        requires
            old(self).wf(),
        ensures
            final(self).wf(),
            final(self).src() == old(self).src(),
            (match r {
                Option::None => old(self).stream().len() == 0 && final(self).stream().len() == 0,
                Option::Some(t) => old(self).stream().len() > 0 && t@ == old(self).stream()[0]
                    && final(self).stream() == old(self).stream().skip(1),
            }),
    {
        let ghost s = self.text@;
        let ghost pos0 = self.pos as int;

        if let Some(tok) = self.pushed_back_tokens.pop() {
            proof {
                let v0 = old(self).pushed_back_tokens@;
                assert(pushback_stream(v0) == seq![v0.last()@] + pushback_stream(v0.drop_last()));
                assert(old(self).stream()[0] == tok@);
                assert(self.stream() =~= old(self).stream().skip(1));
            }
            return Some(tok);
        }

        proof {
            assert(old(self).stream() =~= spec_tokens(s, pos0));
        }

        let text = self.text;
        let n = text.unicode_len();
        let mut pos: usize = self.pos;

        // Skip whitespace and comments until neither applies.
        loop
            invariant
                text@ == s,
                n == s.len(),
                pos <= n,
                scan(s, pos0) == scan(s, pos as int),
            ensures
                pos <= n,
                scan(s, pos0) == scan(s, pos as int),
                pos == n || scan(s, pos as int) == pos as int,
            decreases n - pos,
        {
            let ghost pstart = pos as int;
            while pos < n && space_char(text.get_char(pos))
                invariant
                    text@ == s,
                    n == s.len(),
                    pstart <= pos <= n,
                    scan(s, pos0) == scan(s, pos as int),
                decreases n - pos,
            {
                pos = pos + 1;
            }

            if pos == n {
                break;
            }

            let c = text.get_char(pos);
            if pos + 1 < n && c == '/' && text.get_char(pos + 1) == '/' {
                // A `//` comment: discard the remainder of the line.
                let ghost before = pos as int;
                pos = pos + 2;
                while pos < n && text.get_char(pos) != '\n'
                    invariant
                        text@ == s,
                        n == s.len(),
                        before + 2 <= pos <= n,
                        skip_line(s, before + 2) == skip_line(s, pos as int),
                    decreases n - pos,
                {
                    pos = pos + 1;
                }
                if pos < n {
                    pos = pos + 1;
                }
                proof {
                    assert(line_comment_at(s, before));
                    assert(scan(s, before) == scan(s, skip_line(s, before + 2)));
                }
            } else if pos + 1 < n && c == '/' && text.get_char(pos + 1) == '*' {
                // A `/* ... */` comment: advance until the close, which may
                // span many lines.
                let ghost before = pos as int;
                pos = pos + 2;
                while pos < n && !(text.get_char(pos) == '/' && text.get_char(pos - 1) == '*')
                    invariant
                        text@ == s,
                        n == s.len(),
                        before + 2 <= pos <= n,
                        2 <= pos,
                        skip_block(s, before + 2) == skip_block(s, pos as int),
                    decreases n - pos,
                {
                    pos = pos + 1;
                }
                if pos < n {
                    pos = pos + 1;
                }
                proof {
                    assert(block_comment_at(s, before));
                    assert(scan(s, before) == scan(s, skip_block(s, before + 2)));
                }
            } else {
                // Neither whitespace nor a comment starts here.
                proof {
                    assert(!line_comment_at(s, pos as int));
                    assert(!block_comment_at(s, pos as int));
                    assert(scan(s, pos as int) == pos as int);
                }
                break;
            }
        }

        if pos == n {
            self.pos = pos;
            proof {
                assert(token_at(s, pos0) is None);
                assert(self.stream() =~= spec_tokens(s, pos as int));
            }
            return None;
        }

        // The character at the cursor starts a token.
        proof {
            assert(scan(s, pos0) == pos as int);
        }
        let c = text.get_char(pos);
        let tok: Token;
        if c == '{' {
            pos = pos + 1;
            tok = Token::LBRACE;
        } else if c == '}' {
            pos = pos + 1;
            tok = Token::RBRACE;
        } else if c == ';' {
            pos = pos + 1;
            tok = Token::SEMICOLON;
        } else if c == '*' {
            pos = pos + 1;
            tok = Token::STAR;
        } else {
            // An identifier-like span: consume identifier characters, then
            // match the text against the reserved words.
            let start = pos;
            pos = pos + 1;
            while pos < n && ident_char(text.get_char(pos))
                invariant
                    text@ == s,
                    n == s.len(),
                    start + 1 <= pos <= n,
                    ident_end(s, start + 1) == ident_end(s, pos as int),
                decreases n - pos,
            {
                pos = pos + 1;
            }
            let w = text.substring_char(start, pos);
            tok = if str_eq(w, "struct") {
                Token::STRUCT
            } else if str_eq(w, "typedef") {
                Token::TYPEDEF
            } else if str_eq(w, "class") {
                Token::CLASS
            } else if str_eq(w, "int") {
                Token::INT
            } else if str_eq(w, "long") {
                Token::LONG
            } else {
                Token::IDENTIFIER(Identifier { value: String::from_str(w) })
            };
            proof {
                assert(ident_end(s, pos as int) == pos as int);
                assert(tok@ == word_token(s.subrange(start as int, pos as int)));
            }
        }
        self.pos = pos;
        proof {
            assert(token_at(s, pos0) == Some((tok@, pos as int)));
            assert(spec_tokens(s, pos0) == seq![tok@] + spec_tokens(s, pos as int));
            assert(self.stream() =~= spec_tokens(s, pos as int));
            assert(self.stream() =~= old(self).stream().skip(1));
        }
        Some(tok)
    }
}

} // verus!
