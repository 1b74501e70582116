//! The parser: recursive descent over the token sequence, keyed on grammar
//! position (object body, list body, value position).
//!
//! `sp_parse_doc` defines which document a token sequence denotes, or at
//! which flaw parsing stops; the executable parser is proved to return
//! exactly that. The top level must be an object, and nothing may follow it.

use vstd::prelude::*;

use crate::doc::{Json, Node, NodeContent};
use crate::lex::{sp_lex, sp_num_split, sp_scan_string, tokenize};
use crate::model::{valid_float_lexeme, EntryM, ValueM};
use crate::token::{tokens_view, LexError, Token, TokenM};

verus! {

/// Why parsing failed.
#[derive(Debug, Clone, Copy, PartialEq, Eq)]
pub enum ParseError {
    /// The token sequence does not begin with an opening brace.
    MissingOpenBrace,
    /// A label (a string token) was expected in an object body.
    ExpectedLabel,
    /// A colon was expected after a label.
    ExpectedColon,
    /// A token that cannot begin a value stood in value position.
    ExpectedValue,
    /// After an entry, a comma or a closing brace was expected.
    ExpectedCommaOrBrace,
    /// After a list element, a comma or a closing bracket was expected.
    ExpectedCommaOrBracket,
    /// The token sequence ended in the middle of a construct.
    UnexpectedEnd,
    /// Tokens remain after the top-level object closed.
    TrailingTokens,
}

/// Keeps a recursive call's input strictly shorter than its caller's; it is
/// the identity whenever the remainder a value parse returned is in range,
/// which `lemma_parse_shrinks` shows always holds.
pub open spec fn shrink(orig: Seq<TokenM>, rem: Seq<TokenM>) -> Seq<TokenM> {
    if rem.len() < orig.len() {
        rem
    } else {
        Seq::empty()
    }
}

/// What a value position yields: the value and the remaining tokens.
/// Scalar tokens map directly; a brace or bracket opens a nested object or
/// list; anything else cannot begin a value.
pub open spec fn sp_parse_value(ts: Seq<TokenM>) -> Result<(ValueM, Seq<TokenM>), ParseError>
    decreases ts.len(), 0nat,
{
    if ts.len() == 0 {
        Err(ParseError::UnexpectedEnd)
    } else {
        match ts[0] {
            TokenM::Str(s) => Ok((ValueM::Str(s), ts.skip(1))),
            TokenM::Int(n) => Ok((ValueM::Int(n), ts.skip(1))),
            TokenM::Float(lx) => Ok((ValueM::Float(lx), ts.skip(1))),
            TokenM::Bool(b) => Ok((ValueM::Bool(b), ts.skip(1))),
            TokenM::Null => Ok((ValueM::Null, ts.skip(1))),
            TokenM::OpenBrace => match sp_parse_entries(ts.skip(1)) {
                Ok((es, rem)) => Ok((ValueM::Obj(es), rem)),
                Err(e) => Err(e),
            },
            TokenM::OpenBracket => match sp_parse_items(ts.skip(1)) {
                Ok((vs, rem)) => Ok((ValueM::List(vs), rem)),
                Err(e) => Err(e),
            },
            _ => Err(ParseError::ExpectedValue),
        }
    }
}

/// An object body, right after the opening brace: entries until the
/// closing brace; an empty body is allowed.
pub open spec fn sp_parse_entries(ts: Seq<TokenM>) -> Result<
    (Seq<EntryM>, Seq<TokenM>),
    ParseError,
>
    decreases ts.len(), 2nat,
{
    if ts.len() == 0 {
        Err(ParseError::UnexpectedEnd)
    } else if ts[0] is CloseBrace {
        Ok((Seq::empty(), ts.skip(1)))
    } else {
        sp_parse_entries1(ts)
    }
}

/// One or more entries, then the closing brace. A comma must be followed
/// by another entry, so a comma right before the brace is rejected.
pub open spec fn sp_parse_entries1(ts: Seq<TokenM>) -> Result<
    (Seq<EntryM>, Seq<TokenM>),
    ParseError,
>
    decreases ts.len(), 1nat,
{
    if ts.len() == 0 {
        Err(ParseError::UnexpectedEnd)
    } else {
        match ts[0] {
            TokenM::Str(label) => {
                if ts.len() == 1 {
                    Err(ParseError::UnexpectedEnd)
                } else if !(ts[1] is Colon) {
                    Err(ParseError::ExpectedColon)
                } else {
                    match sp_parse_value(ts.skip(2)) {
                        Err(e) => Err(e),
                        Ok((v, rem)) => {
                            let entry = EntryM { label, value: v };
                            if rem.len() == 0 {
                                Err(ParseError::UnexpectedEnd)
                            } else if rem[0] is CloseBrace {
                                Ok((seq![entry], rem.skip(1)))
                            } else if rem[0] is Comma {
                                match sp_parse_entries1(shrink(ts, rem.skip(1))) {
                                    Ok((es, rem2)) => Ok((seq![entry] + es, rem2)),
                                    Err(e) => Err(e),
                                }
                            } else {
                                Err(ParseError::ExpectedCommaOrBrace)
                            }
                        },
                    }
                }
            },
            _ => Err(ParseError::ExpectedLabel),
        }
    }
}

/// A list body, right after the opening bracket: elements until the
/// closing bracket; an empty body is allowed.
pub open spec fn sp_parse_items(ts: Seq<TokenM>) -> Result<
    (Seq<ValueM>, Seq<TokenM>),
    ParseError,
>
    decreases ts.len(), 2nat,
{
    if ts.len() == 0 {
        Err(ParseError::UnexpectedEnd)
    } else if ts[0] is CloseBracket {
        Ok((Seq::empty(), ts.skip(1)))
    } else {
        sp_parse_items1(ts)
    }
}

/// One or more elements, then the closing bracket. A comma must be
/// followed by another element, so a trailing comma is rejected.
pub open spec fn sp_parse_items1(ts: Seq<TokenM>) -> Result<
    (Seq<ValueM>, Seq<TokenM>),
    ParseError,
>
    decreases ts.len(), 1nat,
{
    if ts.len() == 0 {
        Err(ParseError::UnexpectedEnd)
    } else {
        match sp_parse_value(ts) {
        Err(e) => Err(e),
        Ok((v, rem)) => {
            if rem.len() == 0 {
                Err(ParseError::UnexpectedEnd)
            } else if rem[0] is CloseBracket {
                Ok((seq![v], rem.skip(1)))
            } else if rem[0] is Comma {
                match sp_parse_items1(shrink(ts, rem.skip(1))) {
                    Ok((vs, rem2)) => Ok((seq![v] + vs, rem2)),
                    Err(e) => Err(e),
                }
            } else {
                Err(ParseError::ExpectedCommaOrBracket)
            }
        },
        }
    }
}

/// What a whole token sequence denotes: one top-level object and nothing
/// after it.
pub open spec fn sp_parse_doc(ts: Seq<TokenM>) -> Result<Seq<EntryM>, ParseError> {
    if ts.len() == 0 || !(ts[0] is OpenBrace) {
        Err(ParseError::MissingOpenBrace)
    } else {
        match sp_parse_entries(ts.skip(1)) {
            Err(e) => Err(e),
            Ok((es, rem)) => if rem.len() == 0 {
                Ok(es)
            } else {
                Err(ParseError::TrailingTokens)
            },
        }
    }
}

/// Every successful parse consumes at least one token, so the `shrink`
/// guard in the definitions above is always the identity.
pub proof fn lemma_parse_shrinks(ts: Seq<TokenM>)
    ensures
        sp_parse_value(ts) matches Ok((v, rem)) ==> rem.len() < ts.len(),
        sp_parse_entries(ts) matches Ok((es, rem)) ==> rem.len() < ts.len(),
        sp_parse_entries1(ts) matches Ok((es, rem)) ==> rem.len() < ts.len(),
        sp_parse_items(ts) matches Ok((vs, rem)) ==> rem.len() < ts.len(),
        sp_parse_items1(ts) matches Ok((vs, rem)) ==> rem.len() < ts.len(),
    decreases ts.len(),
{
    if ts.len() > 0 {
        lemma_parse_shrinks(ts.skip(1));
        if ts.len() >= 2 {
            lemma_parse_shrinks(ts.skip(2));
        }
        // the value conjunct is now available; entries1 builds on it
        if ts.len() >= 2 && ts[0] is Str && ts[1] is Colon {
            match sp_parse_value(ts.skip(2)) {
                Ok((v, rem)) => {
                    if rem.len() > 0 && rem[0] is Comma {
                        lemma_parse_shrinks(shrink(ts, rem.skip(1)));
                    }
                },
                Err(_) => {},
            }
        }
        // items1 parses a value at the very front
        match sp_parse_value(ts) {
            Ok((v, rem)) => {
                if rem.len() > 0 && rem[0] is Comma {
                    lemma_parse_shrinks(shrink(ts, rem.skip(1)));
                }
            },
            Err(_) => {},
        }
    }
}

/// Tokens whose float lexemes are all valid decimal text.
pub open spec fn tokens_wf(ts: Seq<TokenM>) -> bool {
    forall|k: int|
        0 <= k < ts.len() ==> ((#[trigger] ts[k]) matches TokenM::Float(lx)
            ==> valid_float_lexeme(lx))
}

/// The tokenizer only emits floats it has checked, so every token sequence
/// it accepts is well formed.
pub proof fn lemma_lex_tokens_wf(s: Seq<char>)
    ensures
        sp_lex(s) matches Ok(tms) ==> tokens_wf(tms),
    decreases s.len(),
{
    if s.len() == 0 {
    } else if crate::model::is_ws_char(s[0]) {
        lemma_lex_tokens_wf(s.skip(1));
    } else if s[0] == '"' {
        crate::lex::lemma_scan_string_len(s.skip(1));
        match sp_scan_string(s.skip(1)) {
            None => {},
            Some((content, rest)) => {
                lemma_lex_tokens_wf(rest);
                lemma_tokens_wf_cons(TokenM::Str(content), sp_lex(rest));
            },
        }
    } else if s[0] == ':' || s[0] == ',' || s[0] == '{' || s[0] == '}' || s[0] == '[' || s[0]
        == ']' {
        lemma_lex_tokens_wf(s.skip(1));
        let tm = if s[0] == ':' {
            TokenM::Colon
        } else if s[0] == ',' {
            TokenM::Comma
        } else if s[0] == '{' {
            TokenM::OpenBrace
        } else if s[0] == '}' {
            TokenM::CloseBrace
        } else if s[0] == '[' {
            TokenM::OpenBracket
        } else {
            TokenM::CloseBracket
        };
        lemma_tokens_wf_cons(tm, sp_lex(s.skip(1)));
    } else if crate::model::is_num_char(s[0]) {
        crate::lex::lemma_num_split(s);
        let (lx, rest) = sp_num_split(s);
        if rest.len() > 0 {
            lemma_lex_tokens_wf(rest);
            if crate::model::has_dot(lx) {
                if valid_float_lexeme(lx) {
                    lemma_tokens_wf_cons(TokenM::Float(lx), sp_lex(rest));
                }
            } else {
                if crate::model::dec_val(lx) <= usize::MAX as nat {
                    lemma_tokens_wf_cons(
                        TokenM::Int(crate::model::dec_val(lx) as usize),
                        sp_lex(rest),
                    );
                }
            }
        }
    } else if s[0] == 't' {
        if s.len() >= 4 && s.take(4) == seq!['t', 'r', 'u', 'e'] {
            lemma_lex_tokens_wf(s.skip(4));
            lemma_tokens_wf_cons(TokenM::Bool(true), sp_lex(s.skip(4)));
        }
    } else if s[0] == 'f' {
        if s.len() >= 5 && s.take(5) == seq!['f', 'a', 'l', 's', 'e'] {
            lemma_lex_tokens_wf(s.skip(5));
            lemma_tokens_wf_cons(TokenM::Bool(false), sp_lex(s.skip(5)));
        }
    } else if s[0] == 'n' {
        if s.len() >= 4 && s.take(4) == seq!['n', 'u', 'l', 'l'] {
            lemma_lex_tokens_wf(s.skip(4));
            lemma_tokens_wf_cons(TokenM::Null, sp_lex(s.skip(4)));
        }
    }
}

// ===== the executable parser =====

/// The relation the object-body loop maintains: the entries already built,
/// followed by whatever the remaining tokens denote, are what the whole
/// body denotes.
spec fn entries_rel(ts0: Seq<TokenM>, done: Seq<EntryM>, cur: Seq<TokenM>) -> bool {
    match sp_parse_entries1(cur) {
        Ok((es, rem)) => sp_parse_entries1(ts0) == Ok::<(Seq<EntryM>, Seq<TokenM>), ParseError>(
            (done + es, rem),
        ),
        Err(e) => sp_parse_entries1(ts0) == Err::<(Seq<EntryM>, Seq<TokenM>), ParseError>(e),
    }
}

proof fn lemma_entries_rel_step(
    ts0: Seq<TokenM>,
    done: Seq<EntryM>,
    cur: Seq<TokenM>,
    em: EntryM,
    next: Seq<TokenM>,
)
    requires
        entries_rel(ts0, done, cur),
        sp_parse_entries1(cur) == (match sp_parse_entries1(next) {
            Ok((es, rem2)) => Ok::<(Seq<EntryM>, Seq<TokenM>), ParseError>((seq![em] + es, rem2)),
            Err(e) => Err::<(Seq<EntryM>, Seq<TokenM>), ParseError>(e),
        }),
    ensures
        entries_rel(ts0, done.push(em), next),
{
    match sp_parse_entries1(next) {
        Ok((es, rem2)) => {
            assert(done + (seq![em] + es) =~= done.push(em) + es);
        },
        Err(_) => {},
    }
}

/// The same relation for list bodies.
spec fn items_rel(ts0: Seq<TokenM>, done: Seq<ValueM>, cur: Seq<TokenM>) -> bool {
    match sp_parse_items1(cur) {
        Ok((vs, rem)) => sp_parse_items1(ts0) == Ok::<(Seq<ValueM>, Seq<TokenM>), ParseError>(
            (done + vs, rem),
        ),
        Err(e) => sp_parse_items1(ts0) == Err::<(Seq<ValueM>, Seq<TokenM>), ParseError>(e),
    }
}

proof fn lemma_items_rel_step(
    ts0: Seq<TokenM>,
    done: Seq<ValueM>,
    cur: Seq<TokenM>,
    vm: ValueM,
    next: Seq<TokenM>,
)
    requires
        items_rel(ts0, done, cur),
        sp_parse_items1(cur) == (match sp_parse_items1(next) {
            Ok((vs, rem2)) => Ok::<(Seq<ValueM>, Seq<TokenM>), ParseError>((seq![vm] + vs, rem2)),
            Err(e) => Err::<(Seq<ValueM>, Seq<TokenM>), ParseError>(e),
        }),
    ensures
        items_rel(ts0, done.push(vm), next),
{
    match sp_parse_items1(next) {
        Ok((vs, rem2)) => {
            assert(done + (seq![vm] + vs) =~= done.push(vm) + vs);
        },
        Err(_) => {},
    }
}

/// Parses the value beginning at token `i`.
fn parse_value_at(tokens: &Vec<Token>, i: usize) -> (r: Result<(NodeContent, usize), ParseError>)
    requires
        i <= tokens@.len(),
    ensures
        ({
            let tsm = tokens_view(tokens@);
            &&& (sp_parse_value(tsm.skip(i as int)) matches Ok((vm, rem)) ==> r matches Ok((c, j))
                && crate::doc::value_view(c) == vm && i < j <= tokens@.len() && rem == tsm.skip(
                j as int,
            ) && (tokens_wf(tsm) ==> crate::doc::content_wf(c)))
            &&& (sp_parse_value(tsm.skip(i as int)) matches Err(e) ==> r == Err::<
                (NodeContent, usize),
                ParseError,
            >(e))
        }),
    decreases tokens@.len() - i, 0nat,
{
    proof {
        crate::token::lemma_tokens_view(tokens@);
    }
    let ghost tsm = tokens_view(tokens@);
    let ghost pre = tsm.skip(i as int);
    let n = tokens.len();
    if i == n {
        return Err(ParseError::UnexpectedEnd);
    }
    proof {
        assert(pre[0] == tsm[i as int]);
        assert(tsm[i as int] == tokens@[i as int]@);
        assert(pre.skip(1) =~= tsm.skip(i as int + 1));
    }
    let t = &tokens[i];
    match t {
        Token::Str(s) => Ok((NodeContent::Str(s.clone()), i + 1)),
        Token::Int(v) => Ok((NodeContent::Int(*v), i + 1)),
        Token::Float(lx) => {
            proof {
                if tokens_wf(tsm) {
                    assert(tsm[i as int] matches TokenM::Float(l) ==> valid_float_lexeme(l));
                }
            }
            Ok((NodeContent::Float(lx.clone()), i + 1))
        },
        Token::Bool(b) => Ok((NodeContent::Bool(*b), i + 1)),
        Token::Null => Ok((NodeContent::Null, i + 1)),
        Token::OpenBrace => {
            match parse_entries_at(tokens, i + 1) {
                Ok((jj, nxt)) => Ok((NodeContent::Json(jj), nxt)),
                Err(e) => Err(e),
            }
        },
        Token::OpenBracket => {
            match parse_items_at(tokens, i + 1) {
                Ok((items, nxt)) => Ok((NodeContent::List(items), nxt)),
                Err(e) => Err(e),
            }
        },
        Token::Colon => Err(ParseError::ExpectedValue),
        Token::Comma => Err(ParseError::ExpectedValue),
        Token::CloseBrace => Err(ParseError::ExpectedValue),
        Token::CloseBracket => Err(ParseError::ExpectedValue),
    }
}

/// Parses an object body beginning at token `i`, right after the opening
/// brace, and returns the document and the position after the closing
/// brace.
fn parse_entries_at(tokens: &Vec<Token>, i: usize) -> (r: Result<(Json, usize), ParseError>)
    requires
        i <= tokens@.len(),
    ensures
        ({
            let tsm = tokens_view(tokens@);
            &&& (sp_parse_entries(tsm.skip(i as int)) matches Ok((es, rem)) ==> r matches Ok(
                (jj, nxt),
            ) && jj@ == es && jj.wf() && i < nxt <= tokens@.len() && rem == tsm.skip(nxt as int) && (
            tokens_wf(tsm) ==> jj.deep_wf()))
            &&& (sp_parse_entries(tsm.skip(i as int)) matches Err(e) ==> r == Err::<
                (Json, usize),
                ParseError,
            >(e))
        }),
    decreases tokens@.len() - i, 2nat,
{
    proof {
        crate::token::lemma_tokens_view(tokens@);
    }
    let ghost tsm = tokens_view(tokens@);
    let ghost ts0 = tsm.skip(i as int);
    let n = tokens.len();
    if i == n {
        return Err(ParseError::UnexpectedEnd);
    }
    proof {
        assert(ts0[0] == tsm[i as int]);
        assert(tsm[i as int] == tokens@[i as int]@);
        assert(ts0.skip(1) =~= tsm.skip(i as int + 1));
    }
    if let Token::CloseBrace = &tokens[i] {
        let jj = Json::new();
        proof {
            crate::doc::lemma_nodes_wf(jj.nodes@);
        }
        return Ok((jj, i + 1));
    }
    let mut jj = Json::new();
    let mut cur: usize = i;
    proof {
        crate::doc::lemma_nodes_wf(jj.nodes@);
        match sp_parse_entries1(ts0) {
            Ok((es, rem)) => {
                assert(jj@ + es =~= es);
            },
            Err(_) => {},
        }
    }
    loop
        invariant
            i <= cur <= n,
            n == tokens@.len(),
            tsm == tokens_view(tokens@),
            ts0 == tsm.skip(i as int),
            ts0.len() > 0,
            !(ts0[0] is CloseBrace),
            jj.wf(),
            tokens_wf(tsm) ==> jj.deep_wf(),
            entries_rel(ts0, jj@, tsm.skip(cur as int)),
        decreases n - cur,
    {
        let ghost curm = tsm.skip(cur as int);
        let ghost done = jj@;
        proof {
            crate::token::lemma_tokens_view(tokens@);
            assert(sp_parse_entries(ts0) == sp_parse_entries1(ts0));
        }
        if cur == n {
            return Err(ParseError::UnexpectedEnd);
        }
        proof {
            assert(curm[0] == tsm[cur as int]);
            assert(tsm[cur as int] == tokens@[cur as int]@);
        }
        let tl = &tokens[cur];
        match tl {
            Token::Str(lbl) => {
                if cur + 1 == n {
                    return Err(ParseError::UnexpectedEnd);
                }
                proof {
                    assert(curm[1] == tsm[cur as int + 1]);
                    assert(tsm[cur as int + 1] == tokens@[cur as int + 1]@);
                }
                let is_colon = match &tokens[cur + 1] {
                    Token::Colon => true,
                    _ => false,
                };
                if !is_colon {
                    return Err(ParseError::ExpectedColon);
                }
                proof {
                    assert(curm.skip(2) =~= tsm.skip(cur as int + 2));
                }
                match parse_value_at(tokens, cur + 2) {
                    Err(e) => {
                        return Err(e);
                    },
                    Ok((content, nxt)) => {
                        let ghost em = EntryM { label: lbl@, value: crate::doc::value_view(content) };
                        let ghost cwf = crate::doc::content_wf(content);
                        let node = Node::new(lbl.as_str(), content);
                        jj.addNode(node);
                        proof {
                            assert(jj@ =~= done.push(em));
                        }
                        if nxt == n {
                            return Err(ParseError::UnexpectedEnd);
                        }
                        proof {
                            assert(tsm.skip(nxt as int)[0] == tsm[nxt as int]);
                            assert(tsm[nxt as int] == tokens@[nxt as int]@);
                            assert(tsm.skip(nxt as int).skip(1) =~= tsm.skip(nxt as int + 1));
                        }
                        let te = &tokens[nxt];
                        match te {
                            Token::CloseBrace => {
                                proof {
                                    assert(sp_parse_entries1(curm) == Ok::<
                                        (Seq<EntryM>, Seq<TokenM>),
                                        ParseError,
                                    >((seq![em], tsm.skip(nxt as int + 1))));
                                    assert(done + seq![em] =~= done.push(em));
                                }
                                return Ok((jj, nxt + 1));
                            },
                            Token::Comma => {
                                proof {
                                    assert(tsm.skip(nxt as int + 1).len() < curm.len());
                                    assert(shrink(curm, tsm.skip(nxt as int + 1)) == tsm.skip(
                                        nxt as int + 1,
                                    ));
                                    lemma_entries_rel_step(
                                        ts0,
                                        done,
                                        curm,
                                        em,
                                        tsm.skip(nxt as int + 1),
                                    );
                                }
                                cur = nxt + 1;
                            },
                            _ => {
                                return Err(ParseError::ExpectedCommaOrBrace);
                            },
                        }
                    },
                }
            },
            _ => {
                return Err(ParseError::ExpectedLabel);
            },
        }
    }
}

/// Parses a list body beginning at token `i`, right after the opening
/// bracket, and returns the elements and the position after the closing
/// bracket.
fn parse_items_at(tokens: &Vec<Token>, i: usize) -> (r: Result<(Vec<NodeContent>, usize), ParseError>)
    requires
        i <= tokens@.len(),
    ensures
        ({
            let tsm = tokens_view(tokens@);
            &&& (sp_parse_items(tsm.skip(i as int)) matches Ok((vs, rem)) ==> r matches Ok(
                (items, nxt),
            ) && crate::doc::values_view(items@) == vs && i < nxt <= tokens@.len() && rem
                == tsm.skip(nxt as int) && (tokens_wf(tsm) ==> crate::doc::items_wf(items@)))
            &&& (sp_parse_items(tsm.skip(i as int)) matches Err(e) ==> r == Err::<
                (Vec<NodeContent>, usize),
                ParseError,
            >(e))
        }),
    decreases tokens@.len() - i, 2nat,
{
    proof {
        crate::token::lemma_tokens_view(tokens@);
    }
    let ghost tsm = tokens_view(tokens@);
    let ghost ts0 = tsm.skip(i as int);
    let n = tokens.len();
    if i == n {
        return Err(ParseError::UnexpectedEnd);
    }
    proof {
        assert(ts0[0] == tsm[i as int]);
        assert(tsm[i as int] == tokens@[i as int]@);
        assert(ts0.skip(1) =~= tsm.skip(i as int + 1));
    }
    if let Token::CloseBracket = &tokens[i] {
        let items: Vec<NodeContent> = Vec::new();
        return Ok((items, i + 1));
    }
    let mut items: Vec<NodeContent> = Vec::new();
    let mut cur: usize = i;
    proof {
        match sp_parse_items1(ts0) {
            Ok((vs, rem)) => {
                assert(crate::doc::values_view(items@) + vs =~= vs);
            },
            Err(_) => {},
        }
    }
    loop
        invariant
            i <= cur <= n,
            n == tokens@.len(),
            tsm == tokens_view(tokens@),
            ts0 == tsm.skip(i as int),
            ts0.len() > 0,
            !(ts0[0] is CloseBracket),
            tokens_wf(tsm) ==> crate::doc::items_wf(items@),
            items_rel(ts0, crate::doc::values_view(items@), tsm.skip(cur as int)),
        decreases n - cur,
    {
        let ghost curm = tsm.skip(cur as int);
        let ghost done = crate::doc::values_view(items@);
        proof {
            crate::token::lemma_tokens_view(tokens@);
            assert(sp_parse_items(ts0) == sp_parse_items1(ts0));
        }
        match parse_value_at(tokens, cur) {
            Err(e) => {
                proof {
                    if curm.len() == 0 {
                        assert(sp_parse_items1(curm) == Err::<
                            (Seq<ValueM>, Seq<TokenM>),
                            ParseError,
                        >(ParseError::UnexpectedEnd));
                    }
                }
                return Err(e);
            },
            Ok((content, nxt)) => {
                let ghost vm = crate::doc::value_view(content);
                let ghost old_items = items@;
                items.push(content);
                proof {
                    assert(items@.drop_last() =~= old_items);
                    assert(items@.last() == items@[items@.len() - 1]);
                    assert(crate::doc::values_view(items@) == done.push(vm));
                }
                if nxt == n {
                    return Err(ParseError::UnexpectedEnd);
                }
                proof {
                    assert(tsm.skip(nxt as int)[0] == tsm[nxt as int]);
                    assert(tsm[nxt as int] == tokens@[nxt as int]@);
                    assert(tsm.skip(nxt as int).skip(1) =~= tsm.skip(nxt as int + 1));
                }
                let te = &tokens[nxt];
                match te {
                    Token::CloseBracket => {
                        proof {
                            assert(sp_parse_items1(curm) == Ok::<
                                (Seq<ValueM>, Seq<TokenM>),
                                ParseError,
                            >((seq![vm], tsm.skip(nxt as int + 1))));
                            assert(done + seq![vm] =~= done.push(vm));
                        }
                        return Ok((items, nxt + 1));
                    },
                    Token::Comma => {
                        proof {
                            assert(tsm.skip(nxt as int + 1).len() < curm.len());
                            assert(shrink(curm, tsm.skip(nxt as int + 1)) == tsm.skip(
                                nxt as int + 1,
                            ));
                            lemma_items_rel_step(ts0, done, curm, vm, tsm.skip(nxt as int + 1));
                        }
                        cur = nxt + 1;
                    },
                    _ => {
                        return Err(ParseError::ExpectedCommaOrBracket);
                    },
                }
            },
        }
    }
}

/// Turns a token sequence into a document: one top-level object with
/// nothing after it. The result is exactly what `sp_parse_doc` says of the
/// tokens.
pub fn parse(tokens: &Vec<Token>) -> (r: Result<Json, ParseError>)
    ensures
        ({
            let tsm = tokens_view(tokens@);
            &&& (sp_parse_doc(tsm) matches Ok(es) ==> r matches Ok(jj) && jj@ == es && jj.wf() && (
            tokens_wf(tsm) ==> jj.deep_wf()))
            &&& (sp_parse_doc(tsm) matches Err(e) ==> r == Err::<Json, ParseError>(e))
        }),
{
    proof {
        crate::token::lemma_tokens_view(tokens@);
    }
    let ghost tsm = tokens_view(tokens@);
    if tokens.len() == 0 {
        return Err(ParseError::MissingOpenBrace);
    }
    proof {
        assert(tsm[0] == tokens@[0]@);
    }
    let is_brace = match &tokens[0] {
        Token::OpenBrace => true,
        _ => false,
    };
    if !is_brace {
        return Err(ParseError::MissingOpenBrace);
    }
    match parse_entries_at(tokens, 1) {
        Err(e) => Err(e),
        Ok((jj, nxt)) => {
            if nxt == tokens.len() {
                proof {
                    assert(tsm.skip(nxt as int).len() == 0);
                }
                Ok(jj)
            } else {
                Err(ParseError::TrailingTokens)
            }
        },
    }
}

impl Json {
    /// Builds a document from text: tokenize, then parse. Either stage's
    /// flaw is reported as a message and nothing is built; a missing
    /// opening brace gets its own wording. A parsed document is well
    /// formed down to every nested level.
    pub fn fromString(text: &str) -> (r: Result<Json, String>)
        ensures
            sp_lex(text@) matches Err(le) ==> r matches Err(m) && m@ == "Json format error"@,
            sp_lex(text@) matches Ok(tms) ==> (match sp_parse_doc(tms) {
                Ok(es) => r matches Ok(jj) && jj@ == es && jj.wf() && jj.deep_wf(),
                Err(pe) => r matches Err(m) && m@ == (if pe == ParseError::MissingOpenBrace {
                    "Json format error: missing opening curly bracket"@
                } else {
                    "Json format error"@
                }),
            }),
    {
        match tokenize(text) {
            Err(_) => Err("Json format error".to_owned()),
            Ok(toks) => {
                proof {
                    lemma_lex_tokens_wf(text@);
                }
                match parse(&toks) {
                    Ok(jj) => Ok(jj),
                    Err(pe) => {
                        let msg = match pe {
                            ParseError::MissingOpenBrace => {
                                "Json format error: missing opening curly bracket"
                            },
                            _ => "Json format error",
                        };
                        Err(msg.to_owned())
                    },
                }
            },
        }
    }
}

/// Prepending a well-formed token keeps a token sequence well formed.
proof fn lemma_tokens_wf_cons(t: TokenM, r: Result<Seq<TokenM>, LexError>)
    requires
        t matches TokenM::Float(lx) ==> valid_float_lexeme(lx),
        r matches Ok(tms) ==> tokens_wf(tms),
    ensures
        crate::lex::lex_cons(t, r) matches Ok(tms2) ==> tokens_wf(tms2),
{
    match r {
        Ok(tms) => {
            let tms2 = seq![t] + tms;
            assert forall|k: int|
                0 <= k < tms2.len() implies ((#[trigger] tms2[k]) matches TokenM::Float(lx)
                ==> valid_float_lexeme(lx)) by {
                if k > 0 {
                    assert(tms2[k] == tms[k - 1]);
                }
            }
        },
        Err(_) => {},
    }
}

} // verus!
