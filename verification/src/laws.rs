//! The laws that tie the renderer, the tokenizer and the parser together:
//! rendered text tokenizes to exactly the tokens of the document, those
//! tokens parse back to exactly the document, and a fresh label that is
//! added and then removed leaves no trace.

use vstd::prelude::*;

use crate::lex::{
    lemma_num_split_at, lex_cons, sp_lex, sp_scan_string,
};
use crate::model::{
    dec_str, dec_val, digit_char, digit_val, escape_char, escape_str, has_dot, is_digit_char,
    is_num_char, is_ws_char, render_doc, render_entries, render_entry, render_items, render_value,
    sp_find, sp_has, valid_float_lexeme, wf_entries, wf_items, wf_value, lemma_find_at,
    lemma_find_spec, EntryM, ValueM,
};
use crate::parse::{
    sp_parse_doc, sp_parse_entries, sp_parse_entries1, sp_parse_items, sp_parse_items1,
    sp_parse_value, shrink, ParseError,
};
use crate::token::{LexError, TokenM};

verus! {

// ===== the tokens a rendered document consists of =====

/// The tokens the rendered text of a value scans to.
pub open spec fn toks_value(v: ValueM) -> Seq<TokenM>
    decreases v,
{
    match v {
        ValueM::Str(s) => seq![TokenM::Str(s)],
        ValueM::Int(n) => seq![TokenM::Int(n)],
        ValueM::Float(lx) => seq![TokenM::Float(lx)],
        ValueM::Bool(b) => seq![TokenM::Bool(b)],
        ValueM::Null => seq![TokenM::Null],
        ValueM::List(items) => seq![TokenM::OpenBracket] + toks_items(items) + seq![
            TokenM::CloseBracket,
        ],
        ValueM::Obj(es) => seq![TokenM::OpenBrace] + toks_entries(es) + seq![TokenM::CloseBrace],
    }
}

pub open spec fn toks_items(items: Seq<ValueM>) -> Seq<TokenM>
    decreases items,
{
    if items.len() == 0 {
        Seq::empty()
    } else if items.len() == 1 {
        toks_value(items[0])
    } else {
        toks_value(items[0]) + seq![TokenM::Comma] + toks_items(items.skip(1))
    }
}

pub open spec fn toks_entry(e: EntryM) -> Seq<TokenM>
    decreases e,
{
    seq![TokenM::Str(e.label), TokenM::Colon] + toks_value(e.value)
}

pub open spec fn toks_entries(es: Seq<EntryM>) -> Seq<TokenM>
    decreases es,
{
    if es.len() == 0 {
        Seq::empty()
    } else if es.len() == 1 {
        toks_entry(es[0])
    } else {
        toks_entry(es[0]) + seq![TokenM::Comma] + toks_entries(es.skip(1))
    }
}

/// Prepends tokens to a tokenizing outcome, keeping an error as it is.
pub open spec fn lex_app(pre: Seq<TokenM>, r: Result<Seq<TokenM>, LexError>) -> Result<
    Seq<TokenM>,
    LexError,
> {
    match r {
        Ok(ts) => Ok(pre + ts),
        Err(e) => Err(e),
    }
}

// ===== scanning rendered pieces =====

/// Scanning an escaped string body followed by its closing quote decodes
/// back to the unescaped content and stops right after the quote.
proof fn lemma_scan_escape(s: Seq<char>, rest: Seq<char>)
    ensures
        sp_scan_string(escape_str(s) + seq!['"'] + rest) == Some((s, rest)),
    decreases s.len(),
{
    let t = escape_str(s) + seq!['"'] + rest;
    if s.len() == 0 {
        assert(t =~= seq!['"'] + rest);
        assert(t[0] == '"');
        assert(t.skip(1) =~= rest);
        assert(sp_scan_string(t) == Some((Seq::<char>::empty(), rest)));
    } else {
        let c = s[0];
        assert(escape_str(s) == escape_char(c) + escape_str(s.skip(1)));
        lemma_scan_escape(s.skip(1), rest);
        if c == '\\' || c == '"' {
            assert(t[0] == '\\');
            assert(t[1] == c);
            assert(t.len() >= 2);
            assert(t.skip(2) =~= escape_str(s.skip(1)) + seq!['"'] + rest);
            assert(sp_scan_string(t) == Some((seq![c] + s.skip(1), rest)));
            assert(seq![c] + s.skip(1) =~= s);
        } else {
            assert(t[0] == c);
            assert(t.skip(1) =~= escape_str(s.skip(1)) + seq!['"'] + rest);
            if t[0] == '\\' && t.len() >= 2 && (t[1] == '"' || t[1] == '\\') {
                assert(false);
            }
            assert(sp_scan_string(t) == Some((seq![c] + s.skip(1), rest)));
            assert(seq![c] + s.skip(1) =~= s);
        }
    }
}

/// The decimal rendering of a number consists of digits alone.
proof fn lemma_dec_str_digits(n: nat)
    ensures
        dec_str(n).len() >= 1,
        forall|i: int| 0 <= i < dec_str(n).len() ==> is_digit_char(#[trigger] dec_str(n)[i]),
    decreases n,
{
    if n >= 10 {
        lemma_dec_str_digits(n / 10);
        assert forall|i: int| 0 <= i < dec_str(n).len() implies is_digit_char(
            #[trigger] dec_str(n)[i],
        ) by {
            if i < dec_str(n).len() - 1 {
                assert(dec_str(n)[i] == dec_str(n / 10)[i]);
            }
        }
    }
}

/// Reading the decimal rendering of a number back gives the number.
proof fn lemma_dec_val_dec_str(n: nat)
    ensures
        dec_val(dec_str(n)) == n,
    decreases n,
{
    if n < 10 {
        assert(dec_str(n) == seq![digit_char(n)]);
        assert(dec_str(n).drop_last() =~= Seq::<char>::empty());
        assert(dec_val(Seq::<char>::empty()) == 0);
        assert(dec_str(n).last() == digit_char(n));
        assert(digit_val(digit_char(n)) == n);
        assert(dec_val(dec_str(n)) == dec_val(dec_str(n).drop_last()) * 10 + digit_val(
            dec_str(n).last(),
        ));
    } else {
        lemma_dec_val_dec_str(n / 10);
        assert(dec_str(n) == dec_str(n / 10).push(digit_char(n % 10)));
        assert(dec_str(n).drop_last() =~= dec_str(n / 10));
        assert(dec_str(n).last() == digit_char(n % 10));
        assert(digit_val(digit_char(n % 10)) == n % 10);
        assert(dec_val(dec_str(n)) == dec_val(dec_str(n / 10)) * 10 + (n % 10));
        assert((n / 10) * 10 + n % 10 == n);
    }
}

// ===== tokenizing rendered text =====

/// Tokenizing the rendered text of a value, followed by anything that does
/// not extend a number, yields the value's tokens and goes on with the
/// rest.
proof fn lemma_lex_render_value(v: ValueM, rest: Seq<char>)
    requires
        wf_value(v),
        rest.len() > 0,
        !is_num_char(rest[0]),
    ensures
        sp_lex(render_value(v) + rest) == lex_app(toks_value(v), sp_lex(rest)),
    decreases v,
{
    let t = render_value(v) + rest;
    match v {
        ValueM::Str(s) => {
            assert(t[0] == '"');
            assert(!is_ws_char('"'));
            assert(t.skip(1) =~= escape_str(s) + seq!['"'] + rest);
            lemma_scan_escape(s, rest);
            assert(sp_lex(t) == lex_cons(TokenM::Str(s), sp_lex(rest)));
        },
        ValueM::Int(n) => {
            let ds = dec_str(n as nat);
            lemma_dec_str_digits(n as nat);
            lemma_dec_val_dec_str(n as nat);
            assert(t[0] == ds[0]);
            assert(is_digit_char(t[0]));
            assert forall|k: int| 0 <= k < ds.len() implies is_num_char(#[trigger] t[k]) by {
                assert(t[k] == ds[k]);
            }
            assert(t[ds.len() as int] == rest[0]);
            lemma_num_split_at(t, ds.len() as int);
            assert(t.take(ds.len() as int) =~= ds);
            assert(t.skip(ds.len() as int) =~= rest);
            assert(!has_dot(ds)) by {
                if has_dot(ds) {
                    let d = choose|d: int| 0 <= d < ds.len() && #[trigger] ds[d] == '.';
                    assert(is_digit_char(ds[d]));
                }
            }
            assert(dec_val(ds) == n as nat);
            assert(sp_lex(t) == lex_cons(TokenM::Int(n), sp_lex(rest)));
        },
        ValueM::Float(lx) => {
            assert(valid_float_lexeme(lx));
            assert(t[0] == lx[0]);
            assert(is_num_char(t[0]));
            assert forall|k: int| 0 <= k < lx.len() implies is_num_char(#[trigger] t[k]) by {
                assert(t[k] == lx[k]);
            }
            assert(t[lx.len() as int] == rest[0]);
            lemma_num_split_at(t, lx.len() as int);
            assert(t.take(lx.len() as int) =~= lx);
            assert(t.skip(lx.len() as int) =~= rest);
            assert(has_dot(lx));
            assert(sp_lex(t) == lex_cons(TokenM::Float(lx), sp_lex(rest)));
        },
        ValueM::Bool(b) => {
            if b {
                assert(t[0] == 't');
                assert(t.len() >= 4);
                assert(t.take(4) =~= seq!['t', 'r', 'u', 'e']);
                assert(t.skip(4) =~= rest);
                assert(sp_lex(t) == lex_cons(TokenM::Bool(true), sp_lex(rest)));
            } else {
                assert(t[0] == 'f');
                assert(t.len() >= 5);
                assert(t.take(5) =~= seq!['f', 'a', 'l', 's', 'e']);
                assert(t.skip(5) =~= rest);
                assert(sp_lex(t) == lex_cons(TokenM::Bool(false), sp_lex(rest)));
            }
        },
        ValueM::Null => {
            assert(t[0] == 'n');
            assert(t.len() >= 4);
            assert(t.take(4) =~= seq!['n', 'u', 'l', 'l']);
            assert(t.skip(4) =~= rest);
            assert(sp_lex(t) == lex_cons(TokenM::Null, sp_lex(rest)));
        },
        ValueM::List(items) => {
            let rest2 = seq![']'] + rest;
            assert(t[0] == '[');
            assert(t.skip(1) =~= render_items(items) + rest2);
            assert(rest2[0] == ']');
            lemma_lex_render_items(items, rest2);
            assert(rest2.skip(1) =~= rest);
            assert(sp_lex(rest2) == lex_cons(TokenM::CloseBracket, sp_lex(rest)));
            assert(sp_lex(t) == lex_cons(TokenM::OpenBracket, sp_lex(t.skip(1))));
            match sp_lex(rest) {
                Ok(ts) => {
                    assert(sp_lex(rest2) == Ok::<Seq<TokenM>, LexError>(
                        seq![TokenM::CloseBracket] + ts,
                    ));
                    assert(sp_lex(t.skip(1)) == Ok::<Seq<TokenM>, LexError>(
                        toks_items(items) + (seq![TokenM::CloseBracket] + ts),
                    ));
                    assert(seq![TokenM::OpenBracket] + (toks_items(items) + (seq![
                        TokenM::CloseBracket,
                    ] + ts)) =~= toks_value(v) + ts);
                },
                Err(_) => {},
            }
        },
        ValueM::Obj(es) => {
            let rest2 = seq!['}'] + rest;
            assert(t[0] == '{');
            assert(t.skip(1) =~= render_entries(es) + rest2);
            assert(rest2[0] == '}');
            lemma_lex_render_entries(es, rest2);
            assert(rest2.skip(1) =~= rest);
            assert(sp_lex(rest2) == lex_cons(TokenM::CloseBrace, sp_lex(rest)));
            assert(sp_lex(t) == lex_cons(TokenM::OpenBrace, sp_lex(t.skip(1))));
            match sp_lex(rest) {
                Ok(ts) => {
                    assert(sp_lex(rest2) == Ok::<Seq<TokenM>, LexError>(
                        seq![TokenM::CloseBrace] + ts,
                    ));
                    assert(sp_lex(t.skip(1)) == Ok::<Seq<TokenM>, LexError>(
                        toks_entries(es) + (seq![TokenM::CloseBrace] + ts),
                    ));
                    assert(seq![TokenM::OpenBrace] + (toks_entries(es) + (seq![TokenM::CloseBrace]
                        + ts)) =~= toks_value(v) + ts);
                },
                Err(_) => {},
            }
        },
    }
}

/// Tokenizing rendered list elements followed by the closing bracket (and
/// anything after it) yields their tokens.
proof fn lemma_lex_render_items(items: Seq<ValueM>, rest: Seq<char>)
    requires
        wf_items(items),
        rest.len() > 0,
        rest[0] == ']',
    ensures
        sp_lex(render_items(items) + rest) == lex_app(toks_items(items), sp_lex(rest)),
    decreases items,
{
    if items.len() == 0 {
        assert(render_items(items) + rest =~= rest);
        match sp_lex(rest) {
            Ok(ts) => {
                assert(toks_items(items) + ts =~= ts);
            },
            Err(_) => {},
        }
    } else if items.len() == 1 {
        assert(render_items(items) == render_value(items[0]));
        assert(toks_items(items) == toks_value(items[0]));
        assert(!is_num_char(']'));
        lemma_lex_render_value(items[0], rest);
    } else {
        let mid = seq![','] + render_items(items.skip(1)) + rest;
        assert(render_items(items) + rest =~= render_value(items[0]) + mid);
        assert(mid[0] == ',');
        assert(!is_num_char(','));
        lemma_lex_render_value(items[0], mid);
        assert(mid.skip(1) =~= render_items(items.skip(1)) + rest);
        lemma_lex_render_items(items.skip(1), rest);
        assert(sp_lex(mid) == lex_cons(TokenM::Comma, sp_lex(mid.skip(1))));
        match sp_lex(rest) {
            Ok(ts) => {
                assert(sp_lex(mid.skip(1)) == Ok::<Seq<TokenM>, LexError>(
                    toks_items(items.skip(1)) + ts,
                ));
                assert(sp_lex(mid) == Ok::<Seq<TokenM>, LexError>(
                    seq![TokenM::Comma] + (toks_items(items.skip(1)) + ts),
                ));
                assert(sp_lex(render_value(items[0]) + mid) == Ok::<Seq<TokenM>, LexError>(
                    toks_value(items[0]) + (seq![TokenM::Comma] + (toks_items(items.skip(1))
                        + ts)),
                ));
                assert(toks_value(items[0]) + (seq![TokenM::Comma] + (toks_items(items.skip(1))
                    + ts)) =~= toks_items(items) + ts);
            },
            Err(_) => {},
        }
    }
}

/// Tokenizing one rendered entry followed by anything that does not extend
/// a number yields its tokens.
proof fn lemma_lex_render_entry(e: EntryM, rest: Seq<char>)
    requires
        wf_value(e.value),
        rest.len() > 0,
        !is_num_char(rest[0]),
    ensures
        sp_lex(render_entry(e) + rest) == lex_app(toks_entry(e), sp_lex(rest)),
    decreases e,
{
    let t = render_entry(e) + rest;
    let mid = seq![':'] + render_value(e.value) + rest;
    assert(t =~= (seq!['"'] + escape_str(e.label) + seq!['"']) + mid);
    assert(t[0] == '"');
    assert(t.skip(1) =~= escape_str(e.label) + seq!['"'] + mid);
    lemma_scan_escape(e.label, mid);
    assert(sp_lex(t) == lex_cons(TokenM::Str(e.label), sp_lex(mid)));
    assert(mid[0] == ':');
    assert(mid.skip(1) =~= render_value(e.value) + rest);
    assert(sp_lex(mid) == lex_cons(TokenM::Colon, sp_lex(mid.skip(1))));
    lemma_lex_render_value(e.value, rest);
    match sp_lex(rest) {
        Ok(ts) => {
            assert(sp_lex(mid.skip(1)) == Ok::<Seq<TokenM>, LexError>(toks_value(e.value) + ts));
            assert(sp_lex(mid) == Ok::<Seq<TokenM>, LexError>(
                seq![TokenM::Colon] + (toks_value(e.value) + ts),
            ));
            assert(sp_lex(t) == Ok::<Seq<TokenM>, LexError>(
                seq![TokenM::Str(e.label)] + (seq![TokenM::Colon] + (toks_value(e.value) + ts)),
            ));
            assert(seq![TokenM::Str(e.label)] + (seq![TokenM::Colon] + (toks_value(e.value) + ts))
                =~= toks_entry(e) + ts);
        },
        Err(_) => {},
    }
}

/// Tokenizing rendered entries followed by the closing brace (and anything
/// after it) yields their tokens.
proof fn lemma_lex_render_entries(es: Seq<EntryM>, rest: Seq<char>)
    requires
        wf_entries(es),
        rest.len() > 0,
        rest[0] == '}',
    ensures
        sp_lex(render_entries(es) + rest) == lex_app(toks_entries(es), sp_lex(rest)),
    decreases es,
{
    if es.len() == 0 {
        assert(render_entries(es) + rest =~= rest);
        match sp_lex(rest) {
            Ok(ts) => {
                assert(toks_entries(es) + ts =~= ts);
            },
            Err(_) => {},
        }
    } else if es.len() == 1 {
        assert(render_entries(es) == render_entry(es[0]));
        assert(toks_entries(es) == toks_entry(es[0]));
        assert(!is_num_char('}'));
        lemma_lex_render_entry(es[0], rest);
    } else {
        let mid = seq![','] + render_entries(es.skip(1)) + rest;
        assert(render_entries(es) + rest =~= render_entry(es[0]) + mid);
        assert(mid[0] == ',');
        assert(!is_num_char(','));
        lemma_lex_render_entry(es[0], mid);
        assert(mid.skip(1) =~= render_entries(es.skip(1)) + rest);
        lemma_lex_render_entries(es.skip(1), rest);
        assert(sp_lex(mid) == lex_cons(TokenM::Comma, sp_lex(mid.skip(1))));
        match sp_lex(rest) {
            Ok(ts) => {
                assert(sp_lex(mid.skip(1)) == Ok::<Seq<TokenM>, LexError>(
                    toks_entries(es.skip(1)) + ts,
                ));
                assert(sp_lex(mid) == Ok::<Seq<TokenM>, LexError>(
                    seq![TokenM::Comma] + (toks_entries(es.skip(1)) + ts),
                ));
                assert(sp_lex(render_entry(es[0]) + mid) == Ok::<Seq<TokenM>, LexError>(
                    toks_entry(es[0]) + (seq![TokenM::Comma] + (toks_entries(es.skip(1)) + ts)),
                ));
                assert(toks_entry(es[0]) + (seq![TokenM::Comma] + (toks_entries(es.skip(1)) + ts))
                    =~= toks_entries(es) + ts);
            },
            Err(_) => {},
        }
    }
}

/// The rendered text of a document tokenizes exactly to the document's
/// tokens: an opening brace, the entries' tokens, a closing brace.
pub proof fn lemma_lex_render_doc(es: Seq<EntryM>)
    requires
        wf_entries(es),
    ensures
        sp_lex(render_doc(es)) == Ok::<Seq<TokenM>, LexError>(
            seq![TokenM::OpenBrace] + toks_entries(es) + seq![TokenM::CloseBrace],
        ),
{
    let t = render_doc(es);
    let rest2 = seq!['}'] + Seq::<char>::empty();
    assert(t[0] == '{');
    assert(t.skip(1) =~= render_entries(es) + rest2);
    lemma_lex_render_entries(es, rest2);
    assert(rest2.skip(1) =~= Seq::<char>::empty());
    assert(sp_lex(Seq::<char>::empty()) == Ok::<Seq<TokenM>, LexError>(Seq::empty()));
    assert(sp_lex(rest2) == Ok::<Seq<TokenM>, LexError>(seq![TokenM::CloseBrace] + Seq::empty()));
    assert(sp_lex(t.skip(1)) == Ok::<Seq<TokenM>, LexError>(
        toks_entries(es) + (seq![TokenM::CloseBrace] + Seq::empty()),
    ));
    assert(sp_lex(t) == Ok::<Seq<TokenM>, LexError>(
        seq![TokenM::OpenBrace] + (toks_entries(es) + (seq![TokenM::CloseBrace] + Seq::empty())),
    ));
    assert(seq![TokenM::OpenBrace] + (toks_entries(es) + (seq![TokenM::CloseBrace] + Seq::empty()))
        =~= seq![TokenM::OpenBrace] + toks_entries(es) + seq![TokenM::CloseBrace]);
}

// ===== parsing the tokens of a rendered document =====

/// A value's tokens start with a token that begins a value.
proof fn lemma_toks_value_first(v: ValueM)
    ensures
        toks_value(v).len() >= 1,
        toks_value(v)[0] is Str || toks_value(v)[0] is Int || toks_value(v)[0] is Float
            || toks_value(v)[0] is Bool || toks_value(v)[0] is Null || toks_value(v)[0]
            is OpenBrace || toks_value(v)[0] is OpenBracket,
{
    match v {
        ValueM::List(items) => {
            assert(toks_value(v)[0] == TokenM::OpenBracket);
        },
        ValueM::Obj(es) => {
            assert(toks_value(v)[0] == TokenM::OpenBrace);
        },
        _ => {},
    }
}

/// The tokens of a value parse back to exactly that value, leaving the
/// rest untouched.
proof fn lemma_parse_toks_value(v: ValueM, rest: Seq<TokenM>)
    ensures
        sp_parse_value(toks_value(v) + rest) == Ok::<(ValueM, Seq<TokenM>), ParseError>((v, rest)),
    decreases v, 0nat,
{
    let t = toks_value(v) + rest;
    match v {
        ValueM::Str(s) => {
            assert(t[0] == TokenM::Str(s));
            assert(t.skip(1) =~= rest);
        },
        ValueM::Int(n) => {
            assert(t[0] == TokenM::Int(n));
            assert(t.skip(1) =~= rest);
        },
        ValueM::Float(lx) => {
            assert(t[0] == TokenM::Float(lx));
            assert(t.skip(1) =~= rest);
        },
        ValueM::Bool(b) => {
            assert(t[0] == TokenM::Bool(b));
            assert(t.skip(1) =~= rest);
        },
        ValueM::Null => {
            assert(t[0] == TokenM::Null);
            assert(t.skip(1) =~= rest);
        },
        ValueM::List(items) => {
            assert(t[0] == TokenM::OpenBracket);
            assert(t.skip(1) =~= toks_items(items) + seq![TokenM::CloseBracket] + rest);
            lemma_parse_toks_items(items, rest);
        },
        ValueM::Obj(es) => {
            assert(t[0] == TokenM::OpenBrace);
            assert(t.skip(1) =~= toks_entries(es) + seq![TokenM::CloseBrace] + rest);
            lemma_parse_toks_entries(es, rest);
        },
    }
}

/// The tokens of rendered entries, closed by a brace, parse back to
/// exactly those entries.
proof fn lemma_parse_toks_entries(es: Seq<EntryM>, rest: Seq<TokenM>)
    ensures
        sp_parse_entries(toks_entries(es) + seq![TokenM::CloseBrace] + rest) == Ok::<
            (Seq<EntryM>, Seq<TokenM>),
            ParseError,
        >((es, rest)),
    decreases es, 1nat,
{
    let t = toks_entries(es) + seq![TokenM::CloseBrace] + rest;
    if es.len() == 0 {
        assert(t[0] == TokenM::CloseBrace);
        assert(t.skip(1) =~= rest);
        assert(es =~= Seq::<EntryM>::empty());
    } else {
        assert(t[0] == toks_entry(es[0])[0]) by {
            if es.len() == 1 {
                assert(toks_entries(es) == toks_entry(es[0]));
            }
        }
        assert(t[0] == TokenM::Str(es[0].label));
        lemma_parse_toks_entries1(es, rest);
    }
}

/// One or more entries' tokens, closed by a brace, parse back entry for
/// entry.
proof fn lemma_parse_toks_entries1(es: Seq<EntryM>, rest: Seq<TokenM>)
    requires
        es.len() >= 1,
    ensures
        sp_parse_entries1(toks_entries(es) + seq![TokenM::CloseBrace] + rest) == Ok::<
            (Seq<EntryM>, Seq<TokenM>),
            ParseError,
        >((es, rest)),
    decreases es, 0nat,
{
    let t = toks_entries(es) + seq![TokenM::CloseBrace] + rest;
    let e0 = es[0];
    lemma_toks_value_first(e0.value);
    if es.len() == 1 {
        let mid = seq![TokenM::CloseBrace] + rest;
        assert(toks_entries(es) == toks_entry(e0));
        assert(t[0] == TokenM::Str(e0.label));
        assert(t[1] == TokenM::Colon);
        assert(t.skip(2) =~= toks_value(e0.value) + mid);
        lemma_parse_toks_value(e0.value, mid);
        assert(mid[0] is CloseBrace);
        assert(mid.skip(1) =~= rest);
        assert(EntryM { label: e0.label, value: e0.value } == e0);
        assert(seq![e0] =~= es);
    } else {
        let mid = seq![TokenM::Comma] + (toks_entries(es.skip(1)) + seq![TokenM::CloseBrace]
            + rest);
        assert(toks_entries(es) == toks_entry(e0) + seq![TokenM::Comma] + toks_entries(
            es.skip(1),
        ));
        assert(toks_entry(e0) == seq![TokenM::Str(e0.label), TokenM::Colon] + toks_value(e0.value));
        assert(t =~= seq![TokenM::Str(e0.label), TokenM::Colon] + (toks_value(e0.value) + mid));
        assert(t[0] == TokenM::Str(e0.label));
        assert(t[1] == TokenM::Colon);
        assert(t.skip(2) =~= toks_value(e0.value) + mid);
        lemma_parse_toks_value(e0.value, mid);
        assert(mid[0] is Comma);
        assert(mid.skip(1) =~= toks_entries(es.skip(1)) + seq![TokenM::CloseBrace] + rest);
        assert(mid.skip(1).len() < t.len());
        assert(shrink(t, mid.skip(1)) == mid.skip(1));
        lemma_parse_toks_entries1(es.skip(1), rest);
        assert(EntryM { label: e0.label, value: e0.value } == e0);
        assert(seq![e0] + es.skip(1) =~= es);
    }
}

/// The tokens of rendered list elements, closed by a bracket, parse back
/// element for element.
proof fn lemma_parse_toks_items(vs: Seq<ValueM>, rest: Seq<TokenM>)
    ensures
        sp_parse_items(toks_items(vs) + seq![TokenM::CloseBracket] + rest) == Ok::<
            (Seq<ValueM>, Seq<TokenM>),
            ParseError,
        >((vs, rest)),
    decreases vs, 1nat,
{
    let t = toks_items(vs) + seq![TokenM::CloseBracket] + rest;
    if vs.len() == 0 {
        assert(t[0] == TokenM::CloseBracket);
        assert(t.skip(1) =~= rest);
        assert(vs =~= Seq::<ValueM>::empty());
    } else {
        lemma_toks_value_first(vs[0]);
        assert(t[0] == toks_value(vs[0])[0]) by {
            if vs.len() == 1 {
                assert(toks_items(vs) == toks_value(vs[0]));
            }
        }
        assert(!(t[0] is CloseBracket));
        lemma_parse_toks_items1(vs, rest);
    }
}

/// One or more elements' tokens, closed by a bracket, parse back element
/// for element.
proof fn lemma_parse_toks_items1(vs: Seq<ValueM>, rest: Seq<TokenM>)
    requires
        vs.len() >= 1,
    ensures
        sp_parse_items1(toks_items(vs) + seq![TokenM::CloseBracket] + rest) == Ok::<
            (Seq<ValueM>, Seq<TokenM>),
            ParseError,
        >((vs, rest)),
    decreases vs, 0nat,
{
    let t = toks_items(vs) + seq![TokenM::CloseBracket] + rest;
    let v0 = vs[0];
    lemma_toks_value_first(v0);
    if vs.len() == 1 {
        let mid = seq![TokenM::CloseBracket] + rest;
        assert(toks_items(vs) == toks_value(v0));
        assert(t =~= toks_value(v0) + mid);
        lemma_parse_toks_value(v0, mid);
        assert(mid[0] is CloseBracket);
        assert(mid.skip(1) =~= rest);
        assert(seq![v0] =~= vs);
    } else {
        let mid = seq![TokenM::Comma] + (toks_items(vs.skip(1)) + seq![TokenM::CloseBracket]
            + rest);
        assert(t =~= toks_value(v0) + mid);
        lemma_parse_toks_value(v0, mid);
        assert(mid[0] is Comma);
        assert(mid.skip(1) =~= toks_items(vs.skip(1)) + seq![TokenM::CloseBracket] + rest);
        assert(mid.skip(1).len() < t.len());
        assert(shrink(t, mid.skip(1)) == mid.skip(1));
        lemma_parse_toks_items1(vs.skip(1), rest);
        assert(seq![v0] + vs.skip(1) =~= vs);
    }
}

// ===== the laws =====

/// The round trip: the rendered text of any well-formed document
/// tokenizes, and the tokens parse back to the document itself, entry for
/// entry. Duplicate labels need no exception: entries survive in order.
pub proof fn lemma_parse_render_round_trip(es: Seq<EntryM>)
    requires
        wf_entries(es),
    ensures
        sp_lex(render_doc(es)) matches Ok(tms) && sp_parse_doc(tms) == Ok::<
            Seq<EntryM>,
            ParseError,
        >(es),
{
    lemma_lex_render_doc(es);
    let tms = seq![TokenM::OpenBrace] + toks_entries(es) + seq![TokenM::CloseBrace];
    assert(tms[0] == TokenM::OpenBrace);
    assert(tms.skip(1) =~= toks_entries(es) + seq![TokenM::CloseBrace] + Seq::<TokenM>::empty());
    lemma_parse_toks_entries(es, Seq::empty());
}

/// Rendering is idempotent across one parse: rendering a well-formed
/// document, parsing the text, and rendering the result reproduces the
/// first text exactly.
pub proof fn lemma_render_idempotent(es: Seq<EntryM>)
    requires
        wf_entries(es),
    ensures
        sp_lex(render_doc(es)) matches Ok(tms) && (sp_parse_doc(tms) matches Ok(es2)
            && render_doc(es2) == render_doc(es)),
{
    lemma_parse_render_round_trip(es);
}

/// Adding an entry under a label the document does not carry, then
/// removing that label, leaves the document exactly as it was: the removal
/// hits the added entry, and afterwards the label is absent and lookups
/// yield nothing.
pub proof fn lemma_add_then_remove(es: Seq<EntryM>, e: EntryM)
    requires
        !sp_has(es, e.label),
    ensures
        sp_find(es.push(e), e.label) == Some(es.len()),
        es.push(e).remove(es.len() as int) == es,
        !sp_has(es.push(e).remove(es.len() as int), e.label),
        sp_find(es.push(e).remove(es.len() as int), e.label) is None,
{
    assert(es.push(e)[es.len() as int] == e);
    assert forall|j: int| 0 <= j < es.len() implies ((#[trigger] es.push(e)[j]).label)
        != e.label by {
        assert(es.push(e)[j] == es[j]);
        assert(es[j].label != e.label);
    }
    lemma_find_at(es.push(e), e.label, es.len() as int);
    assert(es.push(e).remove(es.len() as int) =~= es);
    lemma_find_spec(es, e.label);
}

} // verus!
