//! Laws of the parser, stated over the mathematical model: what a
//! well-formed input yields, and that parsing is a pure function of the
//! text.

use vstd::prelude::*;

use crate::c_parser::c_tokenizer::{
    classify, ident_end, is_ident_char, is_space_char, lemma_tokens_wf_of_text, scan, skip_block,
    skip_line, spec_tokens, token_at, token_wf, tokens_wf, word_token,
};
use crate::c_parser::c_tokens::{spec_token_value, TokenV};
use crate::c_parser::{
    is_type_token, lemma_parse_decl_len, lemma_parse_next_len, lemma_parse_struct_len,
    lemma_parse_typedef_len, spec_parse_all, spec_parse_decl, spec_parse_fields, spec_parse_next,
    spec_parse_struct, spec_parse_typedef, spec_structs, DeclV, StructV,
};

verus! {

/// The type token that a typename renders to: the `int` or `long` keyword
/// for those texts, an identifier for any other.
pub open spec fn type_token_of(w: Seq<char>) -> TokenV {
    if w == "int"@ {
        TokenV::Int
    } else if w == "long"@ {
        TokenV::Long
    } else {
        TokenV::Ident(w)
    }
}

/// The token form of one field declaration: the type token, a star when
/// the typename carries a trailing `*`, the field name, and a semicolon.
pub open spec fn decl_tokens(d: DeclV) -> Seq<TokenV> {
    if d.typename.len() > 0 && d.typename.last() == '*' {
        seq![
            type_token_of(d.typename.drop_last()),
            TokenV::Star,
            TokenV::Ident(d.name),
            TokenV::Semicolon,
        ]
    } else {
        seq![type_token_of(d.typename), TokenV::Ident(d.name), TokenV::Semicolon]
    }
}

/// The token form of a field list, one declaration after the other.
pub open spec fn decls_tokens(ds: Seq<DeclV>) -> Seq<TokenV>
    decreases ds.len(),
{
    if ds.len() == 0 {
        Seq::empty()
    } else {
        decl_tokens(ds[0]) + decls_tokens(ds.skip(1))
    }
}

/// One well-formed construct of the grammar: a plain `struct Name { ... };`
/// or a `typedef struct [Tag] { ... } Name;` with its optional tag.
pub enum Construct {
    Plain(StructV),
    TypedefForm(StructV, Option<Seq<char>>),
}

/// The descriptor a construct declares.
pub open spec fn construct_struct(c: Construct) -> StructV {
    match c {
        Construct::Plain(st) => st,
        Construct::TypedefForm(st, _) => st,
    }
}

/// The token form of a construct.
pub open spec fn construct_tokens(c: Construct) -> Seq<TokenV> {
    match c {
        Construct::Plain(st) => seq![TokenV::Struct, TokenV::Ident(st.name), TokenV::LBrace]
            + decls_tokens(st.fields) + seq![TokenV::RBrace, TokenV::Semicolon],
        Construct::TypedefForm(st, tag) => seq![TokenV::Typedef, TokenV::Struct] + (match tag {
            Some(tg) => seq![TokenV::Ident(tg)],
            None => Seq::empty(),
        }) + seq![TokenV::LBrace] + decls_tokens(st.fields) + seq![
            TokenV::RBrace,
            TokenV::Ident(st.name),
            TokenV::Semicolon,
        ],
    }
}

/// The token form of a whole well-formed input: its constructs, one after
/// the other.
pub open spec fn constructs_tokens(cs: Seq<Construct>) -> Seq<TokenV>
    decreases cs.len(),
{
    if cs.len() == 0 {
        Seq::empty()
    } else {
        construct_tokens(cs[0]) + constructs_tokens(cs.skip(1))
    }
}

proof fn lemma_parse_decl_form(d: DeclV, rest: Seq<TokenV>)
    ensures
        spec_parse_decl(decl_tokens(d) + rest) == (Some(d), rest),
{
    reveal_strlit("*");
    let ts = decl_tokens(d) + rest;
    if d.typename.len() > 0 && d.typename.last() == '*' {
        let base = d.typename.drop_last();
        assert(ts[0] == type_token_of(base));
        assert(is_type_token(ts[0]));
        let rest1 = ts.skip(1);
        assert(rest1 =~= seq![TokenV::Star, TokenV::Ident(d.name), TokenV::Semicolon] + rest);
        assert(rest1[0] is Star);
        let rest2 = rest1.skip(1);
        assert(rest2 =~= seq![TokenV::Ident(d.name), TokenV::Semicolon] + rest);
        assert(rest2.skip(1) =~= seq![TokenV::Semicolon] + rest);
        assert(rest2.skip(1).skip(1) =~= rest);
        assert(spec_token_value(type_token_of(base)) == base);
        assert(base + "*"@ =~= d.typename);
    } else {
        assert(ts[0] == type_token_of(d.typename));
        assert(is_type_token(ts[0]));
        let rest1 = ts.skip(1);
        assert(rest1 =~= seq![TokenV::Ident(d.name), TokenV::Semicolon] + rest);
        assert(!(rest1[0] is Star));
        assert(rest1.skip(1) =~= seq![TokenV::Semicolon] + rest);
        assert(rest1.skip(1).skip(1) =~= rest);
        assert(spec_token_value(type_token_of(d.typename)) == d.typename);
    }
}

proof fn lemma_parse_fields_form(ds: Seq<DeclV>, rest: Seq<TokenV>)
    requires
        rest.len() > 0,
        !is_type_token(rest[0]),
    ensures
        spec_parse_fields(decls_tokens(ds) + rest) == (ds, rest),
    decreases ds.len(),
{
    if ds.len() == 0 {
        assert(decls_tokens(ds) + rest =~= rest);
        assert(spec_parse_decl(rest) == (None::<DeclV>, rest));
        assert(spec_parse_fields(rest).0 =~= ds);
    } else {
        let d = ds[0];
        let tail = decls_tokens(ds.skip(1)) + rest;
        assert(decls_tokens(ds) + rest =~= decl_tokens(d) + tail);
        lemma_parse_decl_form(d, tail);
        lemma_parse_fields_form(ds.skip(1), rest);
        assert(spec_parse_fields(decl_tokens(d) + tail).0 =~= ds);
    }
}

proof fn lemma_parse_struct_form(st: StructV, rest: Seq<TokenV>)
    ensures
        spec_parse_struct(
            seq![TokenV::Ident(st.name), TokenV::LBrace] + decls_tokens(st.fields) + seq![
                TokenV::RBrace,
                TokenV::Semicolon,
            ] + rest,
        ) == (Some(st), rest),
{
    let close = seq![TokenV::RBrace, TokenV::Semicolon] + rest;
    let ts = seq![TokenV::Ident(st.name), TokenV::LBrace] + decls_tokens(st.fields) + seq![
        TokenV::RBrace,
        TokenV::Semicolon,
    ] + rest;
    assert(ts[0] == TokenV::Ident(st.name));
    let ts1 = ts.skip(1);
    assert(ts1 =~= seq![TokenV::LBrace] + decls_tokens(st.fields) + close);
    assert(ts1[0] is LBrace);
    assert(ts1.skip(1) =~= decls_tokens(st.fields) + close);
    lemma_parse_fields_form(st.fields, close);
    let ts2 = spec_parse_fields(ts1.skip(1)).1;
    assert(ts2 == close);
    assert(ts2[0] is RBrace);
    assert(ts2.skip(1) =~= seq![TokenV::Semicolon] + rest);
    assert(ts2.skip(1)[0] is Semicolon);
    assert(ts2.skip(1).skip(1) =~= rest);
    assert(spec_parse_struct(ts).0 == Some(StructV { name: st.name, fields: st.fields }));
    assert(StructV { name: st.name, fields: st.fields } == st);
}

proof fn lemma_parse_typedef_form(st: StructV, tag: Option<Seq<char>>, rest: Seq<TokenV>)
    ensures
        spec_parse_typedef(
            seq![TokenV::Struct] + (match tag {
                Some(tg) => seq![TokenV::Ident(tg)],
                None => Seq::empty(),
            }) + seq![TokenV::LBrace] + decls_tokens(st.fields) + seq![
                TokenV::RBrace,
                TokenV::Ident(st.name),
                TokenV::Semicolon,
            ] + rest,
        ) == (Some(st), rest),
{
    let close = seq![TokenV::RBrace, TokenV::Ident(st.name), TokenV::Semicolon] + rest;
    let tagseq = (match tag {
        Some(tg) => seq![TokenV::Ident(tg)],
        None => Seq::<TokenV>::empty(),
    });
    let ts = seq![TokenV::Struct] + tagseq + seq![TokenV::LBrace] + decls_tokens(st.fields)
        + seq![TokenV::RBrace, TokenV::Ident(st.name), TokenV::Semicolon] + rest;
    assert(ts[0] is Struct);
    let ts1 = ts.skip(1);
    assert(ts1 =~= tagseq + seq![TokenV::LBrace] + decls_tokens(st.fields) + close);
    let ts2 = if ts1.len() > 0 && ts1[0] is Ident {
        ts1.skip(1)
    } else {
        ts1
    };
    if tag is Some {
        assert(ts1[0] is Ident);
        assert(ts2 =~= seq![TokenV::LBrace] + decls_tokens(st.fields) + close);
    } else {
        assert(ts1[0] is LBrace);
        assert(ts2 =~= seq![TokenV::LBrace] + decls_tokens(st.fields) + close);
    }
    assert(ts2[0] is LBrace);
    assert(ts2.skip(1) =~= decls_tokens(st.fields) + close);
    lemma_parse_fields_form(st.fields, close);
    let ts3 = spec_parse_fields(ts2.skip(1)).1;
    assert(ts3 == close);
    assert(ts3[0] is RBrace);
    let ts4 = ts3.skip(1);
    assert(ts4 =~= seq![TokenV::Ident(st.name), TokenV::Semicolon] + rest);
    assert(ts4[0] == TokenV::Ident(st.name));
    let ts5 = ts4.skip(1);
    assert(ts5 =~= seq![TokenV::Semicolon] + rest);
    assert(ts5[0] is Semicolon);
    assert(ts5.skip(1) =~= rest);
    assert(spec_parse_typedef(ts).0 == Some(StructV { name: st.name, fields: st.fields }));
    assert(StructV { name: st.name, fields: st.fields } == st);
}

proof fn lemma_parse_next_construct(c: Construct, rest: Seq<TokenV>)
    ensures
        spec_parse_next(construct_tokens(c) + rest) == (Some(construct_struct(c)), rest),
{
    let ts = construct_tokens(c) + rest;
    match c {
        Construct::Plain(st) => {
            assert(ts[0] is Struct);
            assert(ts.skip(1) =~= seq![TokenV::Ident(st.name), TokenV::LBrace] + decls_tokens(
                st.fields,
            ) + seq![TokenV::RBrace, TokenV::Semicolon] + rest);
            lemma_parse_struct_form(st, rest);
        },
        Construct::TypedefForm(st, tag) => {
            assert(ts[0] is Typedef);
            assert(ts.skip(1) =~= seq![TokenV::Struct] + (match tag {
                Some(tg) => seq![TokenV::Ident(tg)],
                None => Seq::<TokenV>::empty(),
            }) + seq![TokenV::LBrace] + decls_tokens(st.fields) + seq![
                TokenV::RBrace,
                TokenV::Ident(st.name),
                TokenV::Semicolon,
            ] + rest);
            lemma_parse_typedef_form(st, tag, rest);
        },
    }
}

/// Law: a well-formed input made of construct after construct — plain or
/// typedef form, in any mix — yields exactly one descriptor per construct,
/// in input order, each with its name and its fields in declaration order.
pub proof fn lemma_well_formed_input(cs: Seq<Construct>)
    ensures
        spec_parse_all(constructs_tokens(cs)) == cs.map_values(|c: Construct| construct_struct(c)),
    decreases cs.len(),
{
    if cs.len() == 0 {
        assert(spec_parse_next(constructs_tokens(cs)) == (None::<StructV>, constructs_tokens(cs)));
        assert(spec_parse_all(constructs_tokens(cs)) =~= cs.map_values(
            |c: Construct| construct_struct(c),
        ));
    } else {
        lemma_parse_next_construct(cs[0], constructs_tokens(cs.skip(1)));
        lemma_well_formed_input(cs.skip(1));
        assert(spec_parse_all(constructs_tokens(cs)) =~= cs.map_values(
            |c: Construct| construct_struct(c),
        ));
    }
}

/// Law: parsing is a pure function of the source text: re-running the
/// parser over the same text yields descriptors with identical names and
/// field lists.
pub proof fn lemma_reparse_identical(a: Seq<char>, b: Seq<char>)
    requires
        a == b,
    ensures
        spec_structs(a) == spec_structs(b),
{
}

/// One stretch of text the tokenizer skips: a whitespace character, a
/// `//` comment (rendered with its closing newline), or a closed
/// `/* ... */` comment (whose body may span many lines).
pub enum Sep {
    Space(char),
    LineComment(Seq<char>),
    BlockComment(Seq<char>),
}

/// Well-formedness of a separator: a line comment's body holds no newline;
/// a block comment's body neither starts with `/` (which would close the
/// comment against the opening star) nor contains a `*/` pair.
pub open spec fn sep_wf(p: Sep) -> bool {
    match p {
        Sep::Space(c) => is_space_char(c),
        Sep::LineComment(body) => forall|k: int| 0 <= k < body.len() ==> body[k] != '\n',
        Sep::BlockComment(body) => (body.len() > 0 ==> body[0] != '/') && (forall|k: int|
            0 < k < body.len() ==> !(#[trigger] body[k] == '/' && body[k - 1] == '*')),
    }
}

/// The text of a separator.
pub open spec fn sep_text(p: Sep) -> Seq<char> {
    match p {
        Sep::Space(c) => seq![c],
        Sep::LineComment(body) => seq!['/', '/'] + body + seq!['\n'],
        Sep::BlockComment(body) => seq!['/', '*'] + body + seq!['*', '/'],
    }
}

/// The text of a run of separators, one after the other.
pub open spec fn seps_text(ps: Seq<Sep>) -> Seq<char>
    decreases ps.len(),
{
    if ps.len() == 0 {
        Seq::empty()
    } else {
        sep_text(ps[0]) + seps_text(ps.skip(1))
    }
}

/// Well-formedness of a run of separators.
pub open spec fn seps_wf(ps: Seq<Sep>) -> bool {
    forall|k: int| 0 <= k < ps.len() ==> sep_wf(#[trigger] ps[k])
}

/// A word item: a non-empty span of identifier characters. It renders to
/// a keyword or an identifier token, as `word_token` decides.
pub open spec fn is_word_item(w: Seq<char>) -> bool {
    w.len() > 0 && (forall|k: int| 0 <= k < w.len() ==> is_ident_char(#[trigger] w[k]))
}

/// A renderable token item: one punctuation character, or a word.
pub open spec fn text_item_wf(w: Seq<char>) -> bool {
    is_word_item(w) || (w.len() == 1 && (w[0] == '{' || w[0] == '}' || w[0] == ';' || w[0]
        == '*'))
}

/// The token a punctuation character forms.
pub open spec fn punct_token(c: char) -> TokenV {
    if c == '{' {
        TokenV::LBrace
    } else if c == '}' {
        TokenV::RBrace
    } else if c == ';' {
        TokenV::Semicolon
    } else {
        TokenV::Star
    }
}

/// The token a renderable item forms.
pub open spec fn token_of_item(w: Seq<char>) -> TokenV {
    if is_word_item(w) {
        word_token(w)
    } else {
        punct_token(w[0])
    }
}

/// A source text assembled from token items with separator runs around
/// them: `seps[k]` comes before item `ws[k]`, and `seps[ws.len()]` closes
/// the text.
pub open spec fn render(ws: Seq<Seq<char>>, seps: Seq<Seq<Sep>>) -> Seq<char>
    decreases ws.len(),
{
    if ws.len() == 0 {
        if seps.len() == 0 {
            Seq::empty()
        } else {
            seps_text(seps[0])
        }
    } else {
        seps_text(seps[0]) + ws[0] + render(ws.skip(1), seps.skip(1))
    }
}

/// Well-formedness of an assembled text: every item renderable, every
/// separator run well-formed, and two adjacent word items separated by at
/// least one separator (else their texts would fuse into one word).
pub open spec fn render_wf(ws: Seq<Seq<char>>, seps: Seq<Seq<Sep>>) -> bool {
    &&& seps.len() == ws.len() + 1
    &&& (forall|k: int| 0 <= k < ws.len() ==> text_item_wf(#[trigger] ws[k]))
    &&& (forall|k: int| 0 <= k < seps.len() ==> seps_wf(#[trigger] seps[k]))
    &&& (forall|k: int|
        0 <= k < ws.len() - 1 && is_word_item(#[trigger] ws[k]) && is_word_item(ws[k + 1])
            ==> seps[k + 1].len() > 0)
}

proof fn lemma_skip_line_to_newline(s: Seq<char>, i: int, m: int)
    requires
        0 <= i <= m < s.len(),
        s[m] == '\n',
        forall|k: int| i <= k < m ==> s[k] != '\n',
    ensures
        skip_line(s, i) == m + 1,
    decreases m - i,
{
    if i < m {
        lemma_skip_line_to_newline(s, i + 1, m);
    }
}

proof fn lemma_skip_block_to_close(s: Seq<char>, i: int, m: int)
    requires
        1 <= i <= m < s.len(),
        s[m] == '/' && s[m - 1] == '*',
        forall|k: int| i <= k < m ==> !(#[trigger] s[k] == '/' && s[k - 1] == '*'),
    ensures
        skip_block(s, i) == m + 1,
    decreases m - i,
{
    if i < m {
        lemma_skip_block_to_close(s, i + 1, m);
    }
}

proof fn lemma_scan_over_sep(s: Seq<char>, i: int, p: Sep)
    requires
        sep_wf(p),
        0 <= i,
        i + sep_text(p).len() <= s.len(),
        s.subrange(i, i + sep_text(p).len()) == sep_text(p),
    ensures
        scan(s, i) == scan(s, i + sep_text(p).len()),
{
    let w = sep_text(p);
    assert forall|k: int| i <= k < i + w.len() implies #[trigger] s[k] == w[k - i] by {
        assert(s.subrange(i, i + w.len())[k - i] == s[k]);
    }
    match p {
        Sep::Space(c) => {
            assert(s[i] == c);
        },
        Sep::LineComment(body) => {
            assert(s[i] == '/' && s[i + 1] == '/');
            let m = i + 2 + body.len();
            assert(s[m] == w[2 + body.len() as int]);
            assert(s[m] == '\n');
            assert forall|k: int| i + 2 <= k < m implies s[k] != '\n' by {
                assert(s[k] == w[k - i]);
                assert(w[k - i] == body[k - i - 2]);
            }
            lemma_skip_line_to_newline(s, i + 2, m);
            assert(scan(s, i) == scan(s, skip_line(s, i + 2)));
        },
        Sep::BlockComment(body) => {
            assert(s[i] == '/' && s[i + 1] == '*');
            let m = i + 3 + body.len();
            assert(s[m] == w[3 + body.len() as int]);
            assert(s[m - 1] == w[2 + body.len() as int]);
            assert(s[m] == '/' && s[m - 1] == '*');
            assert forall|k: int| i + 2 <= k < m implies !(#[trigger] s[k] == '/' && s[k - 1]
                == '*') by {
                assert(s[k] == w[k - i]);
                if k == i + 2 {
                    if body.len() > 0 {
                        assert(s[k] == body[0]);
                    } else {
                        assert(s[k] == '*');
                    }
                } else if k < i + 2 + body.len() {
                    assert(s[k] == body[k - i - 2]);
                    assert(s[k - 1] == w[k - 1 - i]);
                    assert(s[k - 1] == body[k - i - 3]);
                } else {
                    assert(k == i + 2 + body.len());
                    assert(s[k] == '*');
                }
            }
            lemma_skip_block_to_close(s, i + 2, m);
            assert(scan(s, i) == scan(s, skip_block(s, i + 2)));
        },
    }
}

proof fn lemma_scan_over_seps(s: Seq<char>, i: int, ps: Seq<Sep>)
    requires
        seps_wf(ps),
        0 <= i,
        i + seps_text(ps).len() <= s.len(),
        s.subrange(i, i + seps_text(ps).len()) == seps_text(ps),
    ensures
        scan(s, i) == scan(s, i + seps_text(ps).len()),
    decreases ps.len(),
{
    if ps.len() > 0 {
        let all = seps_text(ps);
        let w0 = sep_text(ps[0]);
        let rest = seps_text(ps.skip(1));
        assert(all == w0 + rest);
        assert forall|k: int| i <= k < i + all.len() implies #[trigger] s[k] == all[k - i] by {
            assert(s.subrange(i, i + all.len())[k - i] == s[k]);
        }
        assert(s.subrange(i, i + w0.len()) =~= w0) by {
            assert forall|j: int| 0 <= j < w0.len() implies s.subrange(i, i + w0.len())[j]
                == w0[j] by {
                assert(s[i + j] == all[j]);
            }
        }
        assert(sep_wf(ps[0]));
        lemma_scan_over_sep(s, i, ps[0]);
        let i1 = i + w0.len();
        assert(s.subrange(i1, i1 + rest.len()) =~= rest) by {
            assert forall|j: int| 0 <= j < rest.len() implies s.subrange(i1, i1 + rest.len())[j]
                == rest[j] by {
                assert(s[i1 + j] == all[w0.len() + j]);
            }
        }
        assert(seps_wf(ps.skip(1))) by {
            assert(forall|k: int| 0 <= k < ps.skip(1).len() ==> #[trigger] ps.skip(1)[k] == ps[k
                + 1]);
        }
        lemma_scan_over_seps(s, i1, ps.skip(1));
    }
}

proof fn lemma_ident_end_range(s: Seq<char>, j: int, m: int)
    requires
        0 <= j <= m <= s.len(),
        forall|k: int| j <= k < m ==> is_ident_char(#[trigger] s[k]),
        m == s.len() || !is_ident_char(s[m]),
    ensures
        ident_end(s, j) == m,
    decreases m - j,
{
    if j < m {
        lemma_ident_end_range(s, j + 1, m);
    }
}

#[verifier::rlimit(100)]
proof fn lemma_render_tokens_at(s: Seq<char>, i: int, ws: Seq<Seq<char>>, seps: Seq<Seq<Sep>>)
    requires
        render_wf(ws, seps),
        0 <= i <= s.len(),
        s.subrange(i, s.len() as int) == render(ws, seps),
    ensures
        spec_tokens(s, i) == ws.map_values(|w: Seq<char>| token_of_item(w)),
    decreases ws.len(),
{
    let whole = render(ws, seps);
    let sep0 = seps_text(seps[0]);
    assert forall|k: int| i <= k < s.len() implies #[trigger] s[k] == whole[k - i] by {
        assert(s.subrange(i, s.len() as int)[k - i] == s[k]);
    }
    if ws.len() == 0 {
        assert(whole == sep0);
        assert(s.subrange(i, i + sep0.len()) == s.subrange(i, s.len() as int));
        lemma_scan_over_seps(s, i, seps[0]);
        assert(scan(s, s.len() as int) == s.len());
        assert(token_at(s, i) is None);
        assert(spec_tokens(s, i) =~= ws.map_values(|w: Seq<char>| token_of_item(w)));
    } else {
        let w = ws[0];
        let tail = render(ws.skip(1), seps.skip(1));
        assert(whole == sep0 + w + tail);
        let i1 = i + sep0.len();
        let i2 = i1 + w.len();
        assert(s.subrange(i, i + sep0.len()) =~= sep0) by {
            assert forall|j: int| 0 <= j < sep0.len() implies s.subrange(i, i + sep0.len())[j]
                == sep0[j] by {
                assert(s[i + j] == whole[j]);
            }
        }
        lemma_scan_over_seps(s, i, seps[0]);
        assert forall|k: int| 0 <= k < w.len() implies #[trigger] w[k] == s[i1 + k] by {
            assert(s[i1 + k] == whole[sep0.len() + k]);
        }
        assert(text_item_wf(w));

        // The scan stops at the item's first character: no punctuation
        // character nor identifier character is whitespace or a slash.
        assert(s[i1] == w[0]);
        assert(!is_space_char(w[0]) && w[0] != '/');
        assert(scan(s, i1) == i1);
        assert(scan(s, i) == i1);

        // What follows the item is the end of the text, a separator (which
        // starts with whitespace or a slash), or a punctuation item.
        assert(i2 <= s.len());
        assert(is_word_item(w) && i2 < s.len() ==> !is_ident_char(s[i2])) by {
            if is_word_item(w) && i2 < s.len() {
                assert(tail.len() > 0);
                assert(s[i2] == whole[i2 - i]);
                assert(whole[i2 - i] == tail[0]);
                let sep1 = seps_text(seps.skip(1)[0]);
                assert(seps.skip(1)[0] == seps[1]);
                if ws.len() == 1 {
                    assert(tail == sep1);
                } else {
                    assert(tail == sep1 + ws.skip(1)[0] + render(
                        ws.skip(1).skip(1),
                        seps.skip(1).skip(1),
                    ));
                }
                if seps[1].len() > 0 {
                    let p1 = seps[1][0];
                    assert(sep_wf(p1));
                    assert(sep1 == sep_text(p1) + seps_text(seps[1].skip(1)));
                    assert(tail[0] == sep_text(p1)[0]);
                    match p1 {
                        Sep::Space(c) => {
                            assert(tail[0] == c);
                            assert(!is_ident_char(c));
                        },
                        Sep::LineComment(_) => {
                            assert(tail[0] == '/');
                        },
                        Sep::BlockComment(_) => {
                            assert(tail[0] == '/');
                        },
                    }
                } else {
                    // An empty separator run: the next item begins at once
                    // and cannot be a word when this item is one.
                    assert(sep1.len() == 0);
                    assert(ws.len() >= 2);
                    let wn = ws.skip(1)[0];
                    assert(wn == ws[1]);
                    assert(text_item_wf(wn));
                    assert(tail[0] == wn[0]);
                    assert(!(is_word_item(ws[0]) && is_word_item(ws[1]) && seps[1].len()
                        == 0));
                    assert(!is_word_item(wn));
                    assert(!is_ident_char(wn[0]));
                }
            }
        }

        // Classification reproduces the item's token.
        if is_word_item(w) {
            assert(is_ident_char(w[0]));
            assert(w[0] != '{' && w[0] != '}' && w[0] != ';' && w[0] != '*');
            assert forall|k: int| i1 + 1 <= k < i2 implies is_ident_char(#[trigger] s[k]) by {
                assert(s[k] == w[k - i1]);
            }
            lemma_ident_end_range(s, i1 + 1, i2);
            assert(ident_end(s, i1 + 1) == i2);
            assert(s.subrange(i1, i2) =~= w) by {
                assert forall|j: int| 0 <= j < w.len() implies s.subrange(i1, i2)[j] == w[j] by {
                    assert(s.subrange(i1, i2)[j] == s[i1 + j]);
                }
            }
            assert(classify(s, i1) == (word_token(w), i2));
            assert(token_of_item(w) == word_token(w));
        } else {
            assert(w.len() == 1);
            assert(classify(s, i1) == (punct_token(w[0]), i1 + 1));
            assert(i1 + 1 == i2);
        }
        assert(token_at(s, i) == Some((token_of_item(w), i2)));

        // Recurse past this item.
        assert(s.subrange(i2, s.len() as int) =~= tail) by {
            assert forall|j: int| 0 <= j < tail.len() implies s.subrange(i2, s.len() as int)[j]
                == tail[j] by {
                assert(s[i2 + j] == whole[i2 - i + j]);
            }
        }
        assert(render_wf(ws.skip(1), seps.skip(1))) by {
            assert(forall|k: int| 0 <= k < ws.skip(1).len() ==> #[trigger] ws.skip(1)[k] == ws[k + 1]);
            assert(forall|k: int| 0 <= k < seps.skip(1).len() ==> #[trigger] seps.skip(1)[k] == seps[k + 1]);
        }
        lemma_render_tokens_at(s, i2, ws.skip(1), seps.skip(1));
        assert(spec_tokens(s, i) == seq![token_of_item(w)] + spec_tokens(s, i2));
        assert(spec_tokens(s, i) =~= ws.map_values(|x: Seq<char>| token_of_item(x)));
    }
}

/// The tokens of an assembled text are exactly its items' tokens: the
/// separators leave no trace.
pub proof fn lemma_tokens_of_render(ws: Seq<Seq<char>>, seps: Seq<Seq<Sep>>)
    requires
        render_wf(ws, seps),
    ensures
        spec_tokens(render(ws, seps), 0) == ws.map_values(|w: Seq<char>| token_of_item(w)),
{
    let s = render(ws, seps);
    assert(s.subrange(0, s.len() as int) =~= s);
    lemma_render_tokens_at(s, 0, ws, seps);
}

/// Law: comments and whitespace anywhere between tokens never affect the
/// parsed output. A text and a copy of it holding the same token items
/// with different comments and whitespace between them yield identical
/// struct descriptors.
pub proof fn lemma_comments_do_not_change_output(
    ws: Seq<Seq<char>>,
    seps1: Seq<Seq<Sep>>,
    seps2: Seq<Seq<Sep>>,
)
    requires
        render_wf(ws, seps1),
        render_wf(ws, seps2),
    ensures
        spec_structs(render(ws, seps1)) == spec_structs(render(ws, seps2)),
{
    lemma_tokens_of_render(ws, seps1);
    lemma_tokens_of_render(ws, seps2);
}



/// A token that a source text can spell: every token but an identifier
/// whose text is empty, holds a non-identifier character, or reads as a
/// reserved word.
pub open spec fn renderable_token(t: TokenV) -> bool {
    match t {
        TokenV::Ident(v) => is_word_item(v) && word_token(v) == TokenV::Ident(v),
        _ => true,
    }
}

proof fn lemma_keywords_are_words()
    ensures
        is_word_item("struct"@),
        is_word_item("typedef"@),
        is_word_item("class"@),
        is_word_item("int"@),
        is_word_item("long"@),
{
    reveal_strlit("struct");
    reveal_strlit("typedef");
    reveal_strlit("class");
    reveal_strlit("int");
    reveal_strlit("long");
    assert forall|k: int| 0 <= k < "struct"@.len() implies is_ident_char(#[trigger] "struct"@[k]) by {
        if k == 0 {
            assert("struct"@[0] == 's');
        } else if k == 1 {
            assert("struct"@[1] == 't');
        } else if k == 2 {
            assert("struct"@[2] == 'r');
        } else if k == 3 {
            assert("struct"@[3] == 'u');
        } else if k == 4 {
            assert("struct"@[4] == 'c');
        } else {
            assert("struct"@[5] == 't');
        }
    }
    assert forall|k: int| 0 <= k < "typedef"@.len() implies is_ident_char(#[trigger] "typedef"@[k]) by {
        if k == 0 {
            assert("typedef"@[0] == 't');
        } else if k == 1 {
            assert("typedef"@[1] == 'y');
        } else if k == 2 {
            assert("typedef"@[2] == 'p');
        } else if k == 3 {
            assert("typedef"@[3] == 'e');
        } else if k == 4 {
            assert("typedef"@[4] == 'd');
        } else if k == 5 {
            assert("typedef"@[5] == 'e');
        } else {
            assert("typedef"@[6] == 'f');
        }
    }
    assert forall|k: int| 0 <= k < "class"@.len() implies is_ident_char(#[trigger] "class"@[k]) by {
        if k == 0 {
            assert("class"@[0] == 'c');
        } else if k == 1 {
            assert("class"@[1] == 'l');
        } else if k == 2 {
            assert("class"@[2] == 'a');
        } else if k == 3 {
            assert("class"@[3] == 's');
        } else {
            assert("class"@[4] == 's');
        }
    }
    assert forall|k: int| 0 <= k < "int"@.len() implies is_ident_char(#[trigger] "int"@[k]) by {
        if k == 0 {
            assert("int"@[0] == 'i');
        } else if k == 1 {
            assert("int"@[1] == 'n');
        } else {
            assert("int"@[2] == 't');
        }
    }
    assert forall|k: int| 0 <= k < "long"@.len() implies is_ident_char(#[trigger] "long"@[k]) by {
        if k == 0 {
            assert("long"@[0] == 'l');
        } else if k == 1 {
            assert("long"@[1] == 'o');
        } else if k == 2 {
            assert("long"@[2] == 'n');
        } else {
            assert("long"@[3] == 'g');
        }
    }
}

proof fn lemma_token_item(t: TokenV)
    requires
        renderable_token(t),
    ensures
        text_item_wf(spec_token_value(t)),
        token_of_item(spec_token_value(t)) == t,
{
    lemma_keywords_are_words();
    reveal_strlit("struct");
    reveal_strlit("typedef");
    reveal_strlit("class");
    reveal_strlit("int");
    reveal_strlit("long");
    reveal_strlit("{");
    reveal_strlit("}");
    reveal_strlit(";");
    reveal_strlit("*");
    match t {
        TokenV::LBrace => {
            assert(!is_ident_char("{"@[0]));
            assert(!is_word_item("{"@));
        },
        TokenV::RBrace => {
            assert(!is_ident_char("}"@[0]));
            assert(!is_word_item("}"@));
        },
        TokenV::Semicolon => {
            assert(!is_ident_char(";"@[0]));
            assert(!is_word_item(";"@));
        },
        TokenV::Star => {
            assert(!is_ident_char("*"@[0]));
            assert(!is_word_item("*"@));
        },
        TokenV::Int => {
            assert(word_token("int"@) == TokenV::Int);
        },
        TokenV::Long => {
            assert(word_token("long"@) == TokenV::Long);
        },
        TokenV::Struct => {
            assert(word_token("struct"@) == TokenV::Struct);
        },
        TokenV::Typedef => {
            assert(word_token("typedef"@) == TokenV::Typedef);
        },
        TokenV::Class => {
            assert(word_token("class"@) == TokenV::Class);
        },
        TokenV::Ident(v) => {
        },
    }
}

/// Law: a whole source file assembled from well-formed constructs — each
/// token spelled by its text, with any comments and whitespace between
/// tokens — yields exactly one descriptor per construct, in file order,
/// each with its fields in declaration order.
pub proof fn lemma_well_formed_file(cs: Seq<Construct>, seps: Seq<Seq<Sep>>)
    requires
        (forall|k: int| 0 <= k < constructs_tokens(cs).len() ==> renderable_token(
            #[trigger] constructs_tokens(cs)[k],
        )),
        render_wf(
            constructs_tokens(cs).map_values(|t: TokenV| spec_token_value(t)),
            seps,
        ),
    ensures
        spec_structs(
            render(constructs_tokens(cs).map_values(|t: TokenV| spec_token_value(t)), seps),
        ) == cs.map_values(|c: Construct| construct_struct(c)),
{
    let ts = constructs_tokens(cs);
    let ws = ts.map_values(|t: TokenV| spec_token_value(t));
    lemma_tokens_of_render(ws, seps);
    assert forall|k: int| 0 <= k < ws.len() implies ws.map_values(
        |w: Seq<char>| token_of_item(w),
    )[k] == #[trigger] ts[k] by {
        lemma_token_item(ts[k]);
    }
    assert(ws.map_values(|w: Seq<char>| token_of_item(w)) =~= ts);
    lemma_well_formed_input(cs);
}

/// A field declaration that meets the data model: non-empty type text and
/// non-empty name.
pub open spec fn decl_valid(d: DeclV) -> bool {
    d.typename.len() > 0 && d.name.len() > 0
}

/// A descriptor that meets the data model: non-empty name, and every
/// field well-formed.
pub open spec fn struct_valid(st: StructV) -> bool {
    st.name.len() > 0 && (forall|k: int| 0 <= k < st.fields.len() ==> decl_valid(
        #[trigger] st.fields[k],
    ))
}

proof fn lemma_tokens_wf_skip(ts: Seq<TokenV>, n: int)
    requires
        tokens_wf(ts),
        0 <= n <= ts.len(),
    ensures
        tokens_wf(ts.skip(n)),
{
    assert forall|k: int| 0 <= k < ts.skip(n).len() implies token_wf(#[trigger] ts.skip(n)[k]) by {
        assert(ts.skip(n)[k] == ts[k + n]);
    }
}

proof fn lemma_parse_decl_valid(ts: Seq<TokenV>)
    requires
        tokens_wf(ts),
    ensures
        (match spec_parse_decl(ts).0 {
            Some(d) => decl_valid(d),
            None => true,
        }),
        tokens_wf(spec_parse_decl(ts).1),
{
    reveal_strlit("int");
    reveal_strlit("long");
    reveal_strlit("*");
    if ts.len() > 0 && is_type_token(ts[0]) {
        assert(token_wf(ts[0]));
        assert(spec_token_value(ts[0]).len() > 0);
        let rest1 = ts.skip(1);
        lemma_tokens_wf_skip(ts, 1);
        if rest1.len() > 0 {
            if rest1[0] is Star {
                let rest2 = rest1.skip(1);
                lemma_tokens_wf_skip(rest1, 1);
                if rest2.len() > 0 && rest2[0] is Ident {
                    assert(token_wf(rest2[0]));
                    let rest3 = rest2.skip(1);
                    lemma_tokens_wf_skip(rest2, 1);
                    if rest3.len() > 0 && rest3[0] is Semicolon {
                        lemma_tokens_wf_skip(rest3, 1);
                    }
                }
            } else if rest1[0] is Ident {
                assert(token_wf(rest1[0]));
                let rest2 = rest1.skip(1);
                lemma_tokens_wf_skip(rest1, 1);
                if rest2.len() > 0 && rest2[0] is Semicolon {
                    lemma_tokens_wf_skip(rest2, 1);
                }
            }
        }
    }
}

proof fn lemma_parse_fields_valid(ts: Seq<TokenV>)
    requires
        tokens_wf(ts),
    ensures
        (forall|k: int| 0 <= k < spec_parse_fields(ts).0.len() ==> decl_valid(
            #[trigger] spec_parse_fields(ts).0[k],
        )),
        tokens_wf(spec_parse_fields(ts).1),
    decreases ts.len(),
{
    lemma_parse_decl_len(ts);
    lemma_parse_decl_valid(ts);
    let r = spec_parse_decl(ts);
    match r.0 {
        Some(d) => {
            lemma_parse_fields_valid(r.1);
            let rec = spec_parse_fields(r.1);
            assert forall|k: int| 0 <= k < (seq![d] + rec.0).len() implies decl_valid(
                #[trigger] (seq![d] + rec.0)[k],
            ) by {
                if k > 0 {
                    assert((seq![d] + rec.0)[k] == rec.0[k - 1]);
                }
            }
        },
        None => {},
    }
}

proof fn lemma_parse_struct_valid(ts: Seq<TokenV>)
    requires
        tokens_wf(ts),
    ensures
        (match spec_parse_struct(ts).0 {
            Some(st) => struct_valid(st),
            None => true,
        }),
        tokens_wf(spec_parse_struct(ts).1),
{
    if ts.len() > 0 && ts[0] is Ident {
        assert(token_wf(ts[0]));
        let ts1 = ts.skip(1);
        lemma_tokens_wf_skip(ts, 1);
        if ts1.len() > 0 {
            lemma_tokens_wf_skip(ts1, 1);
            if ts1[0] is LBrace {
                lemma_parse_fields_valid(ts1.skip(1));
                let ts2 = spec_parse_fields(ts1.skip(1)).1;
                if ts2.len() > 0 && ts2[0] is RBrace {
                    lemma_tokens_wf_skip(ts2, 1);
                    let ts3 = ts2.skip(1);
                    if ts3.len() > 0 {
                        lemma_tokens_wf_skip(ts3, 1);
                    }
                }
            }
        }
    }
}

proof fn lemma_parse_typedef_valid(ts: Seq<TokenV>)
    requires
        tokens_wf(ts),
    ensures
        (match spec_parse_typedef(ts).0 {
            Some(st) => struct_valid(st),
            None => true,
        }),
        tokens_wf(spec_parse_typedef(ts).1),
{
    if ts.len() > 0 && ts[0] is Struct {
        let ts1 = ts.skip(1);
        lemma_tokens_wf_skip(ts, 1);
        let ts2 = if ts1.len() > 0 && ts1[0] is Ident {
            ts1.skip(1)
        } else {
            ts1
        };
        if ts1.len() > 0 && ts1[0] is Ident {
            lemma_tokens_wf_skip(ts1, 1);
        }
        if ts2.len() > 0 {
            lemma_tokens_wf_skip(ts2, 1);
            if ts2[0] is LBrace {
                lemma_parse_fields_valid(ts2.skip(1));
                let ts3 = spec_parse_fields(ts2.skip(1)).1;
                if ts3.len() > 0 && ts3[0] is RBrace {
                    lemma_tokens_wf_skip(ts3, 1);
                    let ts4 = ts3.skip(1);
                    if ts4.len() > 0 {
                        lemma_tokens_wf_skip(ts4, 1);
                        if ts4[0] is Ident {
                            assert(token_wf(ts4[0]));
                            let ts5 = ts4.skip(1);
                            if ts5.len() > 0 {
                                lemma_tokens_wf_skip(ts5, 1);
                            }
                        }
                    }
                }
            }
        }
    }
}

proof fn lemma_parse_next_valid(ts: Seq<TokenV>)
    requires
        tokens_wf(ts),
    ensures
        (match spec_parse_next(ts).0 {
            Some(st) => struct_valid(st),
            None => true,
        }),
        tokens_wf(spec_parse_next(ts).1),
    decreases ts.len(),
{
    if ts.len() > 0 {
        lemma_tokens_wf_skip(ts, 1);
        lemma_parse_struct_len(ts.skip(1));
        lemma_parse_typedef_len(ts.skip(1));
        if ts[0] is Struct {
            lemma_parse_struct_valid(ts.skip(1));
            let r = spec_parse_struct(ts.skip(1));
            if r.0 is None {
                lemma_parse_next_valid(r.1);
            }
        } else if ts[0] is Typedef {
            lemma_parse_typedef_valid(ts.skip(1));
            let r = spec_parse_typedef(ts.skip(1));
            if r.0 is None {
                lemma_parse_next_valid(r.1);
            }
        } else {
            lemma_parse_next_valid(ts.skip(1));
        }
    }
}

proof fn lemma_parse_all_valid(ts: Seq<TokenV>)
    requires
        tokens_wf(ts),
    ensures
        forall|k: int| 0 <= k < spec_parse_all(ts).len() ==> struct_valid(
            #[trigger] spec_parse_all(ts)[k],
        ),
    decreases ts.len(),
{
    lemma_parse_next_len(ts);
    lemma_parse_next_valid(ts);
    let r = spec_parse_next(ts);
    match r.0 {
        Some(st) => {
            lemma_parse_all_valid(r.1);
            let rec = spec_parse_all(r.1);
            assert forall|k: int| 0 <= k < (seq![st] + rec).len() implies struct_valid(
                #[trigger] (seq![st] + rec)[k],
            ) by {
                if k > 0 {
                    assert((seq![st] + rec)[k] == rec[k - 1]);
                }
            }
        },
        None => {},
    }
}

/// Law (data model): every descriptor the parse of a source text yields
/// is fully valid — its name is non-empty, and every field carries a
/// non-empty type text and a non-empty name. No partially built
/// descriptor is ever visible.
pub proof fn lemma_descriptors_valid(text: Seq<char>)
    ensures
        forall|k: int| 0 <= k < spec_structs(text).len() ==> struct_valid(
            #[trigger] spec_structs(text)[k],
        ),
{
    lemma_tokens_wf_of_text(text, 0);
    lemma_parse_all_valid(spec_tokens(text, 0));
}

/// Tokens that open no construct attempt: neither the `struct` nor the
/// `typedef` keyword occurs among them.
pub open spec fn neutral_tokens(ts: Seq<TokenV>) -> bool {
    forall|k: int| 0 <= k < ts.len() ==> !((#[trigger] ts[k]) is Struct) && !(ts[k] is Typedef)
}

/// Law: material the top-level loop only discards — the leftover of a
/// malformed construct among it, as long as it holds no `struct` or
/// `typedef` keyword — never affects what follows: the remaining input
/// parses exactly as it would alone, so a later valid struct is still
/// found.
pub proof fn lemma_neutral_prefix_skipped(junk: Seq<TokenV>, rest: Seq<TokenV>)
    requires
        neutral_tokens(junk),
    ensures
        spec_parse_all(junk + rest) == spec_parse_all(rest),
    decreases junk.len(),
{
    if junk.len() == 0 {
        assert(junk + rest =~= rest);
    } else {
        assert(!(junk[0] is Struct) && !(junk[0] is Typedef));
        assert((junk + rest)[0] == junk[0]);
        assert((junk + rest).skip(1) =~= junk.skip(1) + rest);
        assert(neutral_tokens(junk.skip(1))) by {
            assert(forall|k: int| 0 <= k < junk.skip(1).len() ==> #[trigger] junk.skip(1)[k]
                == junk[k + 1]);
        }
        lemma_neutral_prefix_skipped(junk.skip(1), rest);
        assert(spec_parse_next(junk + rest) == spec_parse_next(junk.skip(1) + rest));
        assert(spec_parse_all(junk + rest) == spec_parse_all(junk.skip(1) + rest));
    }
}

/// Law: tokens that open no construct, followed by well-formed
/// constructs, yield exactly the constructs' descriptors — malformed
/// material that holds no `struct` or `typedef` keyword never hides a
/// later valid struct.
pub proof fn lemma_junk_then_constructs(junk: Seq<TokenV>, cs: Seq<Construct>)
    requires
        neutral_tokens(junk),
    ensures
        spec_parse_all(junk + constructs_tokens(cs)) == cs.map_values(
            |c: Construct| construct_struct(c),
        ),
{
    lemma_neutral_prefix_skipped(junk, constructs_tokens(cs));
    lemma_well_formed_input(cs);
}

/// A stream at a construct boundary: empty, or opening with the `struct`
/// or `typedef` keyword.
pub open spec fn construct_boundary(k: Seq<TokenV>) -> bool {
    k.len() == 0 || k[0] is Struct || k[0] is Typedef
}

proof fn lemma_parse_decl_boundary(b: Seq<TokenV>, k: Seq<TokenV>)
    requires
        neutral_tokens(b),
        construct_boundary(k),
    ensures
        ({
            let r = spec_parse_decl(b + k);
            &&& (r.0 is Some ==> (b.len() >= 3 && r.1 =~= b.skip(3) + k) || (b.len() >= 4
                && r.1 =~= b.skip(4) + k))
            &&& (r.0 is None ==> r.1 =~= b + k || (b.len() >= 1 && r.1 =~= b.skip(1) + k))
        }),
{
    let ts = b + k;
    if b.len() >= 1 {
        assert(ts[0] == b[0]);
        assert(ts.skip(1) =~= b.skip(1) + k);
    }
    if b.len() >= 2 {
        assert((b.skip(1) + k)[0] == b[1]);
        assert((b.skip(1) + k).skip(1) =~= b.skip(2) + k);
    }
    if b.len() >= 3 {
        assert((b.skip(2) + k)[0] == b[2]);
        assert((b.skip(2) + k).skip(1) =~= b.skip(3) + k);
    }
    if b.len() >= 4 {
        assert((b.skip(3) + k)[0] == b[3]);
        assert((b.skip(3) + k).skip(1) =~= b.skip(4) + k);
    }
    if k.len() > 0 {
        assert(!(k[0] is Ident) && !(k[0] is Star) && !(k[0] is Semicolon) && !is_type_token(
            k[0],
        ));
        if b.len() == 0 {
            assert(ts[0] == k[0]);
        }
        if b.len() == 1 {
            assert((b.skip(1) + k)[0] == k[0]);
        }
        if b.len() == 2 {
            assert((b.skip(2) + k)[0] == k[0]);
        }
        if b.len() == 3 {
            assert((b.skip(3) + k)[0] == k[0]);
        }
    }
}

proof fn lemma_neutral_skip(b: Seq<TokenV>, n: int)
    requires
        neutral_tokens(b),
        0 <= n <= b.len(),
    ensures
        neutral_tokens(b.skip(n)),
{
    assert forall|j: int| 0 <= j < b.skip(n).len() implies !((#[trigger] b.skip(n)[j]) is Struct)
        && !(b.skip(n)[j] is Typedef) by {
        assert(b.skip(n)[j] == b[j + n]);
    }
}

proof fn lemma_parse_fields_boundary(b: Seq<TokenV>, k: Seq<TokenV>)
    requires
        neutral_tokens(b),
        construct_boundary(k),
    ensures
        exists|n: int|
            0 <= n <= b.len() && spec_parse_fields(b + k).1 == #[trigger] (b.skip(n) + k),
    decreases b.len(),
{
    lemma_parse_decl_boundary(b, k);
    let r = spec_parse_decl(b + k);
    match r.0 {
        Some(d) => {
            if b.len() >= 3 && r.1 =~= b.skip(3) + k && !(b.len() >= 4 && r.1 =~= b.skip(4)
                + k) {
                lemma_neutral_skip(b, 3);
                lemma_parse_fields_boundary(b.skip(3), k);
                let n0 = choose|n: int|
                    0 <= n <= b.skip(3).len() && spec_parse_fields(b.skip(3) + k).1 == (b.skip(
                        3,
                    ).skip(n) + k);
                assert(b.skip(3).skip(n0) =~= b.skip(3 + n0));
                assert(spec_parse_fields(b + k).1 == spec_parse_fields(r.1).1);
                assert(0 <= 3 + n0 <= b.len() && spec_parse_fields(b + k).1 == (b.skip(3 + n0)
                    + k));
            } else {
                assert(b.len() >= 4 && r.1 =~= b.skip(4) + k);
                lemma_neutral_skip(b, 4);
                lemma_parse_fields_boundary(b.skip(4), k);
                let n0 = choose|n: int|
                    0 <= n <= b.skip(4).len() && spec_parse_fields(b.skip(4) + k).1 == (b.skip(
                        4,
                    ).skip(n) + k);
                assert(b.skip(4).skip(n0) =~= b.skip(4 + n0));
                assert(spec_parse_fields(b + k).1 == spec_parse_fields(r.1).1);
                assert(0 <= 4 + n0 <= b.len() && spec_parse_fields(b + k).1 == (b.skip(4 + n0)
                    + k));
            }
        },
        None => {
            if r.1 =~= b + k {
                assert(b.skip(0) =~= b);
                assert(0 <= 0 <= b.len() && spec_parse_fields(b + k).1 == (b.skip(0) + k));
            } else {
                assert(b.len() >= 1 && r.1 =~= b.skip(1) + k);
                assert(0 <= 1 <= b.len() && spec_parse_fields(b + k).1 == (b.skip(1) + k));
            }
        },
    }
}

proof fn lemma_parse_struct_boundary(b: Seq<TokenV>, k: Seq<TokenV>)
    requires
        neutral_tokens(b),
        construct_boundary(k),
        b.len() >= 1,
        b[0] is Ident ==> b.len() >= 2,
        spec_parse_struct(b + k).0 is None,
    ensures
        exists|n: int|
            0 <= n <= b.len() && spec_parse_struct(b + k).1 == #[trigger] (b.skip(n) + k),
{
    let ts = b + k;
    assert(ts[0] == b[0]);
    assert(ts.skip(1) =~= b.skip(1) + k);
    if !(b[0] is Ident) {
        assert(spec_parse_struct(ts).1 == (b.skip(1) + k));
        assert(0 <= 1 <= b.len());
    } else {
        let ts1 = ts.skip(1);
        assert(ts1[0] == b[1]);
        assert(ts1.skip(1) =~= b.skip(2) + k);
        if !(b[1] is LBrace) {
            assert(spec_parse_struct(ts).1 == (b.skip(2) + k));
            assert(0 <= 2 <= b.len());
        } else {
            lemma_neutral_skip(b, 2);
            lemma_parse_fields_boundary(b.skip(2), k);
            let n0 = choose|n: int|
                0 <= n <= b.skip(2).len() && spec_parse_fields(b.skip(2) + k).1 == (b.skip(
                    2,
                ).skip(n) + k);
            assert(b.skip(2).skip(n0) =~= b.skip(2 + n0));
            let m = 2 + n0;
            let ts2 = spec_parse_fields(ts1.skip(1)).1;
            assert(ts2 == b.skip(m) + k);
            if ts2.len() > 0 && ts2[0] is RBrace {
                assert(k.len() > 0 ==> !(k[0] is RBrace));
                assert(b.len() > m) by {
                    if b.len() == m {
                        assert(ts2[0] == k[0]);
                    }
                }
                assert(ts2[0] == b[m]);
                let ts3 = ts2.skip(1);
                assert(ts3 =~= b.skip(m + 1) + k);
                if ts3.len() > 0 && ts3[0] is Semicolon {
                    assert(b.len() > m + 1) by {
                        if b.len() == m + 1 {
                            assert(ts3[0] == k[0]);
                        }
                    }
                    assert(false);
                } else {
                    assert(spec_parse_struct(ts).1 == (b.skip(m + 1) + k));
                    assert(0 <= m + 1 <= b.len());
                }
            } else {
                assert(spec_parse_struct(ts).1 == (b.skip(m) + k));
                assert(0 <= m <= b.len());
            }
        }
    }
}

/// Law: a `struct` keyword followed by a malformed construct body — any
/// material of at least one token (two, when it opens with the name
/// identifier) that completes no construct and holds no further `struct`
/// or `typedef` keyword — produces no descriptor, and the well-formed
/// constructs that follow are all still found, exactly as if the
/// malformed construct were absent.
pub proof fn lemma_malformed_struct_skipped(body: Seq<TokenV>, cs: Seq<Construct>)
    requires
        neutral_tokens(body),
        body.len() >= 1,
        body[0] is Ident ==> body.len() >= 2,
        spec_parse_struct(body + constructs_tokens(cs)).0 is None,
    ensures
        spec_parse_all(seq![TokenV::Struct] + body + constructs_tokens(cs)) == cs.map_values(
            |c: Construct| construct_struct(c),
        ),
{
    let k = constructs_tokens(cs);
    assert(construct_boundary(k)) by {
        if cs.len() > 0 {
            assert(k == construct_tokens(cs[0]) + constructs_tokens(cs.skip(1)));
            match cs[0] {
                Construct::Plain(st) => {
                    assert(construct_tokens(cs[0])[0] is Struct);
                },
                Construct::TypedefForm(st, tag) => {
                    assert(construct_tokens(cs[0])[0] is Typedef);
                },
            }
            assert(k[0] == construct_tokens(cs[0])[0]);
        }
    }
    lemma_parse_struct_boundary(body, k);
    let n = choose|n: int|
        0 <= n <= body.len() && spec_parse_struct(body + k).1 == (body.skip(n) + k);
    let full = seq![TokenV::Struct] + body + k;
    assert(full[0] is Struct);
    assert(full.skip(1) =~= body + k);
    let r = spec_parse_struct(body + k);
    assert(spec_parse_next(full) == spec_parse_next(r.1));
    assert(spec_parse_all(full) == spec_parse_all(r.1));
    lemma_neutral_skip(body, n);
    lemma_neutral_prefix_skipped(body.skip(n), k);
    lemma_well_formed_input(cs);
}

} // verus!
