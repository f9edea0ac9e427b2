//! Recognition of struct-shaped constructs from the token stream: one
//! descriptor per successfully recognized `struct` or `typedef struct`
//! construct, with malformed constructs silently skipped.

pub mod c_tokenizer;
pub mod c_tokens;

use vstd::prelude::*;

use c_tokenizer::{spec_tokens, TokenItr};
use c_tokens::{spec_token_value, token_value, Token, TokenV};

verus! {

/// The mathematical shape of a field declaration: type text and name.
pub struct DeclV {
    pub typename: Seq<char>,
    pub name: Seq<char>,
}

/// The mathematical shape of a struct descriptor: name and ordered fields.
pub struct StructV {
    pub name: Seq<char>,
    pub fields: Seq<DeclV>,
}

/// Conveys information about a C/C++ variable as two strings: one for the
/// type (possibly carrying a trailing `*`) and one for the name.
pub struct C_Declaration {
    pub typename: String,
    pub name: String,
}

impl View for C_Declaration {
    type V = DeclV;

    open spec fn view(&self) -> DeclV {
        DeclV { typename: self.typename@, name: self.name@ }
    }
}

/// Conveys information about a C/C++ struct: its name and its fields, in
/// declaration order, each field represented as a `C_Declaration`.
pub struct C_Struct {
    pub name: String,
    pub fields: Vec<C_Declaration>,
}

impl View for C_Struct {
    type V = StructV;

    open spec fn view(&self) -> StructV {
        StructV { name: self.name@, fields: self.fields@.map_values(|d: C_Declaration| d@) }
    }
}

/// A token that may open a field declaration: `int`, `long`, or any
/// identifier. Unknown type names are deliberately accepted verbatim.
pub open spec fn is_type_token(t: TokenV) -> bool {
    t is Int || t is Long || t is Ident
}

/// Second half of a field declaration: `ts` starts at the candidate field
/// identifier, which must be followed by a semicolon. On failure every
/// token pulled here is pushed back, so the stream is restored to `ts`.
pub open spec fn spec_finish_decl(typename: Seq<char>, ts: Seq<TokenV>) -> (Option<DeclV>, Seq<
    TokenV,
>) {
    if ts.len() == 0 {
        (None, ts)
    } else {
        match ts[0] {
            TokenV::Ident(name) => {
                let rest = ts.skip(1);
                if rest.len() > 0 && rest[0] is Semicolon {
                    (Some(DeclV { typename, name }), rest.skip(1))
                } else {
                    (None, ts)
                }
            },
            _ => (None, ts),
        }
    }
}

/// One attempted `type name;` (or `type *name;`) field declaration at the
/// front of `ts`: the parsed field if the attempt succeeds, and the token
/// stream as the attempt leaves it. On failure everything consumed beyond
/// the initial type token is pushed back, so the stream is restored to
/// just past that token (or to `ts` itself when its head is no type).
pub open spec fn spec_parse_decl(ts: Seq<TokenV>) -> (Option<DeclV>, Seq<TokenV>) {
    if ts.len() == 0 {
        (None, ts)
    } else if !is_type_token(ts[0]) {
        (None, ts)
    } else {
        let tn = spec_token_value(ts[0]);
        let rest1 = ts.skip(1);
        if rest1.len() == 0 {
            (None, rest1)
        } else if rest1[0] is Star {
            let r = spec_finish_decl(tn + "*"@, rest1.skip(1));
            if r.0 is Some {
                r
            } else {
                (None, rest1)
            }
        } else {
            spec_finish_decl(tn, rest1)
        }
    }
}

pub proof fn lemma_parse_decl_len(ts: Seq<TokenV>)
    ensures
        spec_parse_decl(ts).1.len() <= ts.len(),
        spec_parse_decl(ts).0 is Some ==> spec_parse_decl(ts).1.len() + 3 <= ts.len(),
{
}

/// The field list at the front of `ts`: field declarations parsed one after
/// the other until an attempt fails, with the stream the last (failed)
/// attempt leaves behind.
pub open spec fn spec_parse_fields(ts: Seq<TokenV>) -> (Seq<DeclV>, Seq<TokenV>)
    decreases ts.len(),
        via spec_parse_fields_decreases
{
    let r = spec_parse_decl(ts);
    match r.0 {
        Some(d) => {
            let rec = spec_parse_fields(r.1);
            (seq![d] + rec.0, rec.1)
        },
        None => (Seq::empty(), r.1),
    }
}

#[via_fn]
proof fn spec_parse_fields_decreases(ts: Seq<TokenV>) {
    lemma_parse_decl_len(ts);
}

pub proof fn lemma_parse_fields_len(ts: Seq<TokenV>)
    ensures
        spec_parse_fields(ts).1.len() <= ts.len(),
    decreases ts.len(),
{
    lemma_parse_decl_len(ts);
    let r = spec_parse_decl(ts);
    if r.0 is Some {
        lemma_parse_fields_len(r.1);
    }
}

/// A `struct Name { fields };` construct, entered after the `struct`
/// keyword was already consumed: the descriptor if every required step
/// succeeds, and the stream the attempt leaves behind. Tokens consumed by
/// a failed required step are not replayed, except that the `}` and `;`
/// steps push a mismatched token back.
pub open spec fn spec_parse_struct(ts: Seq<TokenV>) -> (Option<StructV>, Seq<TokenV>) {
    if ts.len() == 0 {
        (None, ts)
    } else {
        match ts[0] {
            TokenV::Ident(name) => {
                let ts1 = ts.skip(1);
                if ts1.len() == 0 {
                    (None, ts1)
                } else if ts1[0] is LBrace {
                    let r = spec_parse_fields(ts1.skip(1));
                    let ts2 = r.1;
                    if ts2.len() > 0 && ts2[0] is RBrace {
                        let ts3 = ts2.skip(1);
                        if ts3.len() > 0 && ts3[0] is Semicolon {
                            (Some(StructV { name, fields: r.0 }), ts3.skip(1))
                        } else {
                            (None, ts3)
                        }
                    } else {
                        (None, ts2)
                    }
                } else {
                    (None, ts1.skip(1))
                }
            },
            _ => (None, ts.skip(1)),
        }
    }
}

pub proof fn lemma_parse_struct_len(ts: Seq<TokenV>)
    ensures
        spec_parse_struct(ts).1.len() <= ts.len(),
{
    if ts.len() > 0 && ts[0] is Ident {
        let ts1 = ts.skip(1);
        if ts1.len() > 0 && ts1[0] is LBrace {
            lemma_parse_fields_len(ts1.skip(1));
        }
    }
}

/// A `typedef struct [Tag] { fields } Name;` construct, entered after the
/// `typedef` keyword was already consumed: the descriptor if every required
/// step succeeds (the optional tag is discarded), and the stream the
/// attempt leaves behind. Here every required step consumes its token,
/// matching or not.
pub open spec fn spec_parse_typedef(ts: Seq<TokenV>) -> (Option<StructV>, Seq<TokenV>) {
    if ts.len() == 0 {
        (None, ts)
    } else if !(ts[0] is Struct) {
        (None, ts.skip(1))
    } else {
        let ts1 = ts.skip(1);
        let ts2 = if ts1.len() > 0 && ts1[0] is Ident {
            ts1.skip(1)
        } else {
            ts1
        };
        if ts2.len() == 0 {
            (None, ts2)
        } else if !(ts2[0] is LBrace) {
            (None, ts2.skip(1))
        } else {
            let r = spec_parse_fields(ts2.skip(1));
            let ts3 = r.1;
            if ts3.len() == 0 {
                (None, ts3)
            } else if !(ts3[0] is RBrace) {
                (None, ts3.skip(1))
            } else {
                let ts4 = ts3.skip(1);
                if ts4.len() == 0 {
                    (None, ts4)
                } else {
                    match ts4[0] {
                        TokenV::Ident(name) => {
                            let ts5 = ts4.skip(1);
                            if ts5.len() == 0 {
                                (None, ts5)
                            } else if ts5[0] is Semicolon {
                                (Some(StructV { name, fields: r.0 }), ts5.skip(1))
                            } else {
                                (None, ts5.skip(1))
                            }
                        },
                        _ => (None, ts4.skip(1)),
                    }
                }
            }
        }
    }
}

pub proof fn lemma_parse_typedef_len(ts: Seq<TokenV>)
    ensures
        spec_parse_typedef(ts).1.len() <= ts.len(),
{
    if ts.len() > 0 && ts[0] is Struct {
        let ts1 = ts.skip(1);
        let ts2 = if ts1.len() > 0 && ts1[0] is Ident {
            ts1.skip(1)
        } else {
            ts1
        };
        if ts2.len() > 0 && ts2[0] is LBrace {
            lemma_parse_fields_len(ts2.skip(1));
        }
    }
}

/// The top-level loop's next step: pull tokens, attempting a construct
/// after each `struct` or `typedef` keyword and discarding any other
/// token, until a construct succeeds or the stream ends.
pub open spec fn spec_parse_next(ts: Seq<TokenV>) -> (Option<StructV>, Seq<TokenV>)
    decreases ts.len(),
        via spec_parse_next_decreases
{
    if ts.len() == 0 {
        (None, ts)
    } else if ts[0] is Struct {
        let r = spec_parse_struct(ts.skip(1));
        match r.0 {
            Some(st) => (Some(st), r.1),
            None => spec_parse_next(r.1),
        }
    } else if ts[0] is Typedef {
        let r = spec_parse_typedef(ts.skip(1));
        match r.0 {
            Some(st) => (Some(st), r.1),
            None => spec_parse_next(r.1),
        }
    } else {
        spec_parse_next(ts.skip(1))
    }
}

#[via_fn]
proof fn spec_parse_next_decreases(ts: Seq<TokenV>) {
    if ts.len() > 0 {
        lemma_parse_struct_len(ts.skip(1));
        lemma_parse_typedef_len(ts.skip(1));
    }
}

pub proof fn lemma_parse_next_len(ts: Seq<TokenV>)
    ensures
        spec_parse_next(ts).1.len() <= ts.len(),
        spec_parse_next(ts).0 is Some ==> spec_parse_next(ts).1.len() < ts.len(),
    decreases ts.len(),
{
    if ts.len() > 0 {
        lemma_parse_struct_len(ts.skip(1));
        lemma_parse_typedef_len(ts.skip(1));
        if ts[0] is Struct {
            let r = spec_parse_struct(ts.skip(1));
            if r.0 is None {
                lemma_parse_next_len(r.1);
            }
        } else if ts[0] is Typedef {
            let r = spec_parse_typedef(ts.skip(1));
            if r.0 is None {
                lemma_parse_next_len(r.1);
            }
        } else {
            lemma_parse_next_len(ts.skip(1));
        }
    }
}

/// Every struct descriptor the token stream yields, in stream order.
pub open spec fn spec_parse_all(ts: Seq<TokenV>) -> Seq<StructV>
    decreases ts.len(),
        via spec_parse_all_decreases
{
    let r = spec_parse_next(ts);
    match r.0 {
        Some(st) => seq![st] + spec_parse_all(r.1),
        None => Seq::empty(),
    }
}

#[via_fn]
proof fn spec_parse_all_decreases(ts: Seq<TokenV>) {
    lemma_parse_next_len(ts);
}

/// Every struct descriptor of a source text, in file order.
pub open spec fn spec_structs(text: Seq<char>) -> Seq<StructV> {
    spec_parse_all(spec_tokens(text, 0))
}

/// Consumes the next token if it is a semicolon; otherwise pushes the
/// pulled token back, leaving the stream as it was.
fn match_semicolon(itr: &mut TokenItr) -> (r: bool)
    requires
        old(itr).wf(),
    ensures
        final(itr).wf(),
        final(itr).src() == old(itr).src(),
        r == (old(itr).stream().len() > 0 && old(itr).stream()[0] is Semicolon),
        final(itr).stream() == (if r {
            old(itr).stream().skip(1)
        } else {
            old(itr).stream()
        }),
{
    let ghost ts0 = itr.stream();
    if let Some(tok) = itr.next() {
        if let Token::SEMICOLON = tok {
            true
        } else {
            itr.push_back(tok);
            proof {
                assert(itr.stream() =~= ts0);
            }
            false
        }
    } else {
        false
    }
}

/// Consumes the next token if it is a closing brace; otherwise pushes the
/// pulled token back, leaving the stream as it was.
fn match_rbrace(itr: &mut TokenItr) -> (r: bool)
    requires
        old(itr).wf(),
    ensures
        final(itr).wf(),
        final(itr).src() == old(itr).src(),
        r == (old(itr).stream().len() > 0 && old(itr).stream()[0] is RBrace),
        final(itr).stream() == (if r {
            old(itr).stream().skip(1)
        } else {
            old(itr).stream()
        }),
{
    let ghost ts0 = itr.stream();
    if let Some(tok) = itr.next() {
        if let Token::RBRACE = tok {
            true
        } else {
            itr.push_back(tok);
            proof {
                assert(itr.stream() =~= ts0);
            }
            false
        }
    } else {
        false
    }
}

/// Tries to consume tokens from a `TokenItr` and parse a C variable
/// declaration, like `type1 name1;`, optionally with a pointer modifier
/// on the type.
pub fn parse_declaration(itr: &mut TokenItr) -> (r: Option<C_Declaration>)
    requires
        old(itr).wf(),
    ensures
        final(itr).wf(),
        final(itr).src() == old(itr).src(),
        final(itr).stream() == spec_parse_decl(old(itr).stream()).1,
        (match r {
            Option::Some(d) => spec_parse_decl(old(itr).stream()).0 == Some(d@),
            Option::None => spec_parse_decl(old(itr).stream()).0 is None,
        }),
{
    let ghost ts0 = itr.stream();
    if let Some(tok1) = itr.next() {
        let valid_type = match &tok1 {
            Token::INT => true,
            Token::LONG => true,
            Token::IDENTIFIER(_) => true,
            _ => false,
        };

        if !valid_type {
            itr.push_back(tok1);
            proof {
                assert(itr.stream() =~= ts0);
            }
            return None;
        }

        if let Some(tok_id0) = itr.next() {
            let mut typename = token_value(tok1);
            let mut tok_id = tok_id0;
            let mut had_star = false;
            if let Token::STAR = tok_id {
                had_star = true;
                typename.append("*");
                if let Some(tok3) = itr.next() {
                    tok_id = tok3;
                } else {
                    itr.push_back(Token::STAR);
                    proof {
                        assert(itr.stream() =~= ts0.skip(1));
                    }
                    return None;
                }
            }
            if let Token::IDENTIFIER(_) = tok_id {
                if match_semicolon(itr) {
                    return Some(C_Declaration { typename, name: token_value(tok_id) });
                }
                // No semicolon follows: restore everything consumed beyond
                // the initial type token.
                itr.push_back(tok_id);
                if had_star {
                    itr.push_back(Token::STAR);
                }
                proof {
                    assert(itr.stream() =~= ts0.skip(1));
                }
                return None;
            } else {
                itr.push_back(tok_id);
                if had_star {
                    itr.push_back(Token::STAR);
                }
                proof {
                    assert(itr.stream() =~= ts0.skip(1));
                }
                return None;
            }
        } else {
            return None;
        }
    } else {
        return None;
    }
}

/// Parses field declarations one after the other until an attempt fails,
/// pushing each parsed field onto `fields`.
fn parse_field_list(itr: &mut TokenItr, fields: &mut Vec<C_Declaration>)
    requires
        old(itr).wf(),
        old(fields)@.len() == 0,
    ensures
        final(itr).wf(),
        final(itr).src() == old(itr).src(),
        final(itr).stream() == spec_parse_fields(old(itr).stream()).1,
        final(fields)@.map_values(|d: C_Declaration| d@) == spec_parse_fields(
            old(itr).stream(),
        ).0,
{
    loop
        invariant
            itr.wf(),
            itr.src() == old(itr).src(),
            spec_parse_fields(old(itr).stream()).1 == spec_parse_fields(itr.stream()).1,
            spec_parse_fields(old(itr).stream()).0 == fields@.map_values(|d: C_Declaration| d@)
                + spec_parse_fields(itr.stream()).0,
        decreases itr.stream().len(),
    {
        let ghost ts_cur = itr.stream();
        match parse_declaration(itr) {
            Some(d) => {
                fields.push(d);
                proof {
                    lemma_parse_decl_len(ts_cur);
                    assert(spec_parse_fields(ts_cur).0 == seq![d@] + spec_parse_fields(
                        itr.stream(),
                    ).0);
                    assert(fields@.map_values(|x: C_Declaration| x@) =~= fields@.drop_last()
                        .map_values(|x: C_Declaration| x@).push(d@));
                    assert(fields@.drop_last().map_values(|x: C_Declaration| x@)
                        + (seq![d@] + spec_parse_fields(itr.stream()).0)
                        =~= fields@.map_values(|x: C_Declaration| x@) + spec_parse_fields(
                        itr.stream(),
                    ).0);
                }
            },
            None => {
                proof {
                    assert(spec_parse_fields(ts_cur).0 == Seq::<DeclV>::empty());
                    assert(fields@.map_values(|d: C_Declaration| d@) + Seq::<DeclV>::empty()
                        =~= fields@.map_values(|d: C_Declaration| d@));
                }
                return ;
            },
        }
    }
}

/// Tries to consume tokens from a `TokenItr` and parse a C++ struct
/// declaration, like `struct s1 { type1 field1; type2 field2; };`.
///
/// This function is called after consuming the `struct` keyword. After
/// successful parsing, a `C_Struct` structure is returned wrapped in an
/// `Option`.
pub fn parse_struct(itr: &mut TokenItr) -> (r: Option<C_Struct>)
    requires
        old(itr).wf(),
    ensures
        final(itr).wf(),
        final(itr).src() == old(itr).src(),
        final(itr).stream() == spec_parse_struct(old(itr).stream()).1,
        (match r {
            Option::Some(st) => spec_parse_struct(old(itr).stream()).0 == Some(st@),
            Option::None => spec_parse_struct(old(itr).stream()).0 is None,
        }),
{
    if let Some(tok1) = itr.next() {
        let is_id = match &tok1 {
            Token::IDENTIFIER(_) => true,
            _ => false,
        };
        if !is_id {
            return None;
        }
        if let Some(tok2) = itr.next() {
            let is_lbrace = match &tok2 {
                Token::LBRACE => true,
                _ => false,
            };
            if !is_lbrace {
                return None;
            }
            let mut fields: Vec<C_Declaration> = Vec::new();
            parse_field_list(itr, &mut fields);
            if match_rbrace(itr) {
                if match_semicolon(itr) {
                    return Some(C_Struct { name: token_value(tok1), fields });
                }
            }
            return None;
        } else {
            return None;
        }
    } else {
        return None;
    }
}

/// Tries to consume tokens from a `TokenItr` and parse a C struct
/// declaration, like `typedef struct { ... } s1;` or
/// `typedef struct _s1 { ... } s1;` (the tag `_s1` is discarded).
///
/// This function is called after consuming the `typedef` keyword. After
/// successful parsing, a `C_Struct` structure is returned wrapped in an
/// `Option`.
pub fn parse_typedef_struct(itr: &mut TokenItr) -> (r: Option<C_Struct>)
    requires
        old(itr).wf(),
    ensures
        final(itr).wf(),
        final(itr).src() == old(itr).src(),
        final(itr).stream() == spec_parse_typedef(old(itr).stream()).1,
        (match r {
            Option::Some(st) => spec_parse_typedef(old(itr).stream()).0 == Some(st@),
            Option::None => spec_parse_typedef(old(itr).stream()).0 is None,
        }),
{
    if let Some(tok1) = itr.next() {
        let is_struct = match &tok1 {
            Token::STRUCT => true,
            _ => false,
        };
        if !is_struct {
            return None;
        }
        let mut tok_identifier_or_lbrace = itr.next();
        let took_tag = match &tok_identifier_or_lbrace {
            Some(Token::IDENTIFIER(_)) => true,
            _ => false,
        };
        if took_tag {
            tok_identifier_or_lbrace = itr.next();
        }
        if let Some(tok2) = tok_identifier_or_lbrace {
            let is_lbrace = match &tok2 {
                Token::LBRACE => true,
                _ => false,
            };
            if !is_lbrace {
                return None;
            }
            let mut fields: Vec<C_Declaration> = Vec::new();
            parse_field_list(itr, &mut fields);
            if let Some(tok3) = itr.next() {
                let is_rbrace = match &tok3 {
                    Token::RBRACE => true,
                    _ => false,
                };
                if !is_rbrace {
                    return None;
                }
                if let Some(tok4) = itr.next() {
                    let is_name = match &tok4 {
                        Token::IDENTIFIER(_) => true,
                        _ => false,
                    };
                    if !is_name {
                        return None;
                    }
                    if let Some(tok5) = itr.next() {
                        let is_semi = match &tok5 {
                            Token::SEMICOLON => true,
                            _ => false,
                        };
                        if !is_semi {
                            return None;
                        }
                        return Some(C_Struct { name: token_value(tok4), fields });
                    } else {
                        return None;
                    }
                } else {
                    return None;
                }
            } else {
                return None;
            }
        } else {
            return None;
        }
    } else {
        return None;
    }
}

/// A producer of `C_Struct` values: the top-level loop over the token
/// stream, yielding one descriptor per successful construct. Once
/// exhausted it yields nothing on every subsequent request.
pub struct C_StructIter<'a> {
    finished: bool,
    itr: TokenItr<'a>,
}

impl<'a> C_StructIter<'a> {
    /// The underlying tokenizer is well-formed.
    pub closed spec fn wf(self) -> bool {
        self.itr.wf()
    }

    /// The struct descriptors this producer has yet to yield.
    pub closed spec fn structs(self) -> Seq<StructV> {
        if self.finished {
            Seq::empty()
        } else {
            spec_parse_all(self.itr.stream())
        }
    }

    /// A fresh producer over `text` yields exactly the struct descriptors
    /// of `text`, in file order.
    pub fn new(text: &'a str) -> (r: C_StructIter<'a>)
        ensures
            r.wf(),
            r.structs() == spec_structs(text@),
    {
        C_StructIter { finished: false, itr: TokenItr::new(text) }
    }

    /// Yields the next struct descriptor, or `None` once no construct
    /// remains; after the first `None` every later call returns `None`.
    pub fn next(&mut self) -> (r: Option<C_Struct>)
        requires
            old(self).wf(),
        ensures
            final(self).wf(),
            (match r {
                Option::Some(st) => old(self).structs().len() > 0 && st@ == old(self).structs()[0]
                    && final(self).structs() == old(self).structs().skip(1),
                Option::None => old(self).structs().len() == 0 && final(self).structs().len()
                    == 0,
            }),
    {
        if self.finished {
            return None;
        }
        loop
            invariant
                self.itr.wf(),
                !self.finished,
                !old(self).finished,
                spec_parse_next(self.itr.stream()) == spec_parse_next(old(self).itr.stream()),
                spec_parse_all(self.itr.stream()) == spec_parse_all(old(self).itr.stream()),
            decreases self.itr.stream().len(),
        {
            let ghost ts_cur = self.itr.stream();
            match self.itr.next() {
                Some(t) => {
                    match t {
                        Token::STRUCT => {
                            proof {
                                lemma_parse_struct_len(ts_cur.skip(1));
                            }
                            if let Some(f) = parse_struct(&mut self.itr) {
                                proof {
                                    assert(spec_parse_all(ts_cur) == seq![f@] + spec_parse_all(
                                        self.itr.stream(),
                                    ));
                                    assert(self.structs() =~= old(self).structs().skip(1));
                                }
                                return Some(f);
                            }
                        },
                        Token::TYPEDEF => {
                            proof {
                                lemma_parse_typedef_len(ts_cur.skip(1));
                            }
                            if let Some(f) = parse_typedef_struct(&mut self.itr) {
                                proof {
                                    assert(spec_parse_all(ts_cur) == seq![f@] + spec_parse_all(
                                        self.itr.stream(),
                                    ));
                                    assert(self.structs() =~= old(self).structs().skip(1));
                                }
                                return Some(f);
                            }
                        },
                        _ => {},
                    }
                },
                None => {
                    self.finished = true;
                    return None;
                },
            }
        }
    }
}

/// Parses a whole source text and returns every struct descriptor it
/// holds, in file order.
pub fn parse_c_text(text: &str) -> (r: Vec<C_Struct>)
    ensures
        r@.map_values(|st: C_Struct| st@) == spec_structs(text@),
{
    let mut it = C_StructIter::new(text);
    let mut out: Vec<C_Struct> = Vec::new();
    loop
        invariant
            it.wf(),
            out@.map_values(|st: C_Struct| st@) + it.structs() == spec_structs(text@),
        decreases it.structs().len(),
    {
        match it.next() {
            Some(st) => {
                out.push(st);
                proof {
                    assert(out@.map_values(|x: C_Struct| x@) =~= out@.drop_last().map_values(
                        |x: C_Struct| x@,
                    ).push(st@));
                    assert(out@.map_values(|x: C_Struct| x@) + it.structs() =~= spec_structs(
                        text@,
                    ));
                }
            },
            None => {
                proof {
                    assert(out@.map_values(|x: C_Struct| x@) =~= spec_structs(text@));
                }
                return out;
            },
        }
    }
}

} // verus!
