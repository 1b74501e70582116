//! The tokenizer: its mathematical definition and the executable scanner.
//!
//! `sp_lex` defines, character by character, which token sequence a text
//! denotes, or at which kind of flaw scanning stops. The executable
//! `tokenize` is proved to return exactly that.

use vstd::prelude::*;

use crate::model::{
    dec_val, digit_val, has_dot, is_digit_char, is_num_char, is_ws_char, valid_float_lexeme,
};
use crate::token::{lemma_tokens_view_push, tokens_view, LexError, Token, TokenM};

verus! {

/// Scans the body of a string literal: `s` is the text just after the
/// opening quote. Returns the decoded content and the text after the
/// closing quote, or `None` when the input ends first. A backslash before
/// a quote or a backslash escapes it; any other character stands for
/// itself.
pub open spec fn sp_scan_string(s: Seq<char>) -> Option<(Seq<char>, Seq<char>)>
    decreases s.len(),
{
    if s.len() == 0 {
        None
    } else if s[0] == '"' {
        Some((Seq::empty(), s.skip(1)))
    } else if s[0] == '\\' && s.len() >= 2 && (s[1] == '"' || s[1] == '\\') {
        match sp_scan_string(s.skip(2)) {
            None => None,
            Some((content, rest)) => Some((seq![s[1]] + content, rest)),
        }
    } else {
        match sp_scan_string(s.skip(1)) {
            None => None,
            Some((content, rest)) => Some((seq![s[0]] + content, rest)),
        }
    }
}

/// The longest prefix of number characters, and the text after it.
pub open spec fn sp_num_split(s: Seq<char>) -> (Seq<char>, Seq<char>)
    decreases s.len(),
{
    if s.len() == 0 || !is_num_char(s[0]) {
        (Seq::empty(), s)
    } else {
        let (lx, rest) = sp_num_split(s.skip(1));
        (seq![s[0]] + lx, rest)
    }
}

/// A successful string scan consumes at least the closing quote.
pub proof fn lemma_scan_string_len(s: Seq<char>)
    ensures
        sp_scan_string(s) matches Some((content, rest)) ==> rest.len() < s.len(),
    decreases s.len(),
{
    if s.len() == 0 {
    } else if s[0] == '"' {
    } else if s[0] == '\\' && s.len() >= 2 && (s[1] == '"' || s[1] == '\\') {
        lemma_scan_string_len(s.skip(2));
    } else {
        lemma_scan_string_len(s.skip(1));
    }
}

/// What the number split yields: the prefix is made of number characters,
/// ends exactly where they stop, and the rest is the matching suffix.
pub proof fn lemma_num_split(s: Seq<char>)
    ensures
        ({
            let (lx, rest) = sp_num_split(s);
            &&& lx.len() + rest.len() == s.len()
            &&& lx == s.take(lx.len() as int)
            &&& rest == s.skip(lx.len() as int)
            &&& forall|i: int| 0 <= i < lx.len() ==> is_num_char(#[trigger] lx[i])
            &&& rest.len() > 0 ==> !is_num_char(rest[0])
            &&& (s.len() > 0 && is_num_char(s[0])) ==> lx.len() > 0
        }),
    decreases s.len(),
{
    if s.len() == 0 || !is_num_char(s[0]) {
        let (lx, rest) = sp_num_split(s);
        assert(lx == s.take(0));
        assert(rest == s.skip(0));
    } else {
        lemma_num_split(s.skip(1));
        let (lx1, rest1) = sp_num_split(s.skip(1));
        let (lx, rest) = sp_num_split(s);
        assert(lx == seq![s[0]] + lx1);
        assert(lx =~= s.take(lx.len() as int)) by {
            assert(lx1 == s.skip(1).take(lx1.len() as int));
        }
        assert(rest =~= s.skip(lx.len() as int)) by {
            assert(rest1 == s.skip(1).skip(lx1.len() as int));
        }
    }
}

/// Prepends a token to a tokenizing outcome, keeping an error as it is.
pub open spec fn lex_cons(t: TokenM, r: Result<Seq<TokenM>, LexError>) -> Result<
    Seq<TokenM>,
    LexError,
> {
    match r {
        Ok(ts) => Ok(seq![t] + ts),
        Err(e) => Err(e),
    }
}

/// The token sequence of a text, or the first lexical flaw, scanning left
/// to right and skipping whitespace between tokens. Numbers take the
/// longest run of number characters; `true`, `false` and `null` must match
/// exactly; every other non-whitespace character is an error.
pub open spec fn sp_lex(s: Seq<char>) -> Result<Seq<TokenM>, LexError>
    decreases s.len(),
        via sp_lex_decreases
{
    if s.len() == 0 {
        Ok(Seq::empty())
    } else if is_ws_char(s[0]) {
        sp_lex(s.skip(1))
    } else if s[0] == '"' {
        match sp_scan_string(s.skip(1)) {
            None => Err(LexError::UnterminatedString),
            Some((content, rest)) => lex_cons(TokenM::Str(content), sp_lex(rest)),
        }
    } else if s[0] == ':' {
        lex_cons(TokenM::Colon, sp_lex(s.skip(1)))
    } else if s[0] == ',' {
        lex_cons(TokenM::Comma, sp_lex(s.skip(1)))
    } else if s[0] == '{' {
        lex_cons(TokenM::OpenBrace, sp_lex(s.skip(1)))
    } else if s[0] == '}' {
        lex_cons(TokenM::CloseBrace, sp_lex(s.skip(1)))
    } else if s[0] == '[' {
        lex_cons(TokenM::OpenBracket, sp_lex(s.skip(1)))
    } else if s[0] == ']' {
        lex_cons(TokenM::CloseBracket, sp_lex(s.skip(1)))
    } else if is_num_char(s[0]) {
        let (lx, rest) = sp_num_split(s);
        if rest.len() == 0 {
            Err(LexError::UnterminatedNumber)
        } else if has_dot(lx) {
            if valid_float_lexeme(lx) {
                lex_cons(TokenM::Float(lx), sp_lex(rest))
            } else {
                Err(LexError::MalformedNumber)
            }
        } else {
            if dec_val(lx) <= usize::MAX as nat {
                lex_cons(TokenM::Int(dec_val(lx) as usize), sp_lex(rest))
            } else {
                Err(LexError::IntegerOverflow)
            }
        }
    } else if s[0] == 't' {
        if s.len() >= 4 && s.take(4) == seq!['t', 'r', 'u', 'e'] {
            lex_cons(TokenM::Bool(true), sp_lex(s.skip(4)))
        } else {
            Err(LexError::UnknownLiteral)
        }
    } else if s[0] == 'f' {
        if s.len() >= 5 && s.take(5) == seq!['f', 'a', 'l', 's', 'e'] {
            lex_cons(TokenM::Bool(false), sp_lex(s.skip(5)))
        } else {
            Err(LexError::UnknownLiteral)
        }
    } else if s[0] == 'n' {
        if s.len() >= 4 && s.take(4) == seq!['n', 'u', 'l', 'l'] {
            lex_cons(TokenM::Null, sp_lex(s.skip(4)))
        } else {
            Err(LexError::UnknownLiteral)
        }
    } else {
        Err(LexError::UnexpectedChar)
    }
}

#[via_fn]
proof fn sp_lex_decreases(s: Seq<char>) {
    if s.len() > 0 {
        if s[0] == '"' {
            lemma_scan_string_len(s.skip(1));
        }
        if is_num_char(s[0]) {
            lemma_num_split(s);
        }
    }
}

/// A run of number characters that stops at `m` is exactly what the number
/// split yields.
pub proof fn lemma_num_split_at(s: Seq<char>, m: int)
    requires
        0 <= m <= s.len(),
        forall|k: int| 0 <= k < m ==> is_num_char(#[trigger] s[k]),
        m == s.len() || !is_num_char(s[m]),
    ensures
        sp_num_split(s) == (s.take(m), s.skip(m)),
    decreases s.len(),
{
    if m == 0 {
        assert(s.take(0) =~= Seq::<char>::empty());
        assert(s.skip(0) =~= s);
    } else {
        let s1 = s.skip(1);
        assert(is_num_char(s[0]));
        assert forall|k: int| 0 <= k < m - 1 implies is_num_char(#[trigger] s1[k]) by {
            assert(s1[k] == s[k + 1]);
        }
        assert(m - 1 == s1.len() || !is_num_char(s1[m - 1]));
        lemma_num_split_at(s1, m - 1);
        assert(s.take(m) =~= seq![s[0]] + s1.take(m - 1));
        assert(s.skip(m) =~= s1.skip(m - 1));
    }
}

/// The value of a digit string is at least the value of any prefix.
pub proof fn lemma_dec_val_prefix(s: Seq<char>, m: int)
    requires
        0 <= m <= s.len(),
    ensures
        dec_val(s.take(m)) <= dec_val(s),
    decreases s.len(),
{
    if m == s.len() {
        assert(s.take(m) =~= s);
    } else {
        lemma_dec_val_prefix(s.drop_last(), m);
        assert(s.drop_last().take(m) =~= s.take(m));
    }
}

// ===== the executable scanner =====

/// The relation the scanner's loop maintains: what was already emitted,
/// followed by whatever the rest of the text denotes, is what the whole
/// text denotes.
pub open spec fn lex_rel(all: Seq<char>, done: Seq<TokenM>, i: int) -> bool {
    match sp_lex(all.skip(i)) {
        Ok(tms) => sp_lex(all) == Ok::<Seq<TokenM>, LexError>(done + tms),
        Err(e) => sp_lex(all) == Err::<Seq<TokenM>, LexError>(e),
    }
}

/// Consuming one token keeps the loop relation.
proof fn lemma_lex_rel_step(all: Seq<char>, done: Seq<TokenM>, i: int, k: int, tm: TokenM)
    requires
        lex_rel(all, done, i),
        sp_lex(all.skip(i)) == lex_cons(tm, sp_lex(all.skip(i + k))),
    ensures
        lex_rel(all, done.push(tm), i + k),
{
    match sp_lex(all.skip(i + k)) {
        Ok(tms) => {
            assert(sp_lex(all.skip(i)) == Ok::<Seq<TokenM>, LexError>(seq![tm] + tms));
            assert(done + (seq![tm] + tms) =~= done.push(tm) + tms);
        },
        Err(e) => {},
    }
}

fn is_num_char_exec(c: char) -> (r: bool)
    ensures
        r == is_num_char(c),
{
    let u = c as u32;
    c == '.' || (('0' as u32) <= u && u <= ('9' as u32))
}

/// Scans a string body starting right after the opening quote; returns the
/// decoded content and the position after the closing quote.
fn scan_string(cs: &Vec<char>, start: usize) -> (r: Option<(String, usize)>)
    requires
        start <= cs@.len(),
    ensures
        r matches Some((content, end)) ==> start < end <= cs@.len() && sp_scan_string(
            cs@.skip(start as int),
        ) == Some((content@, cs@.skip(end as int))),
        r is None ==> sp_scan_string(cs@.skip(start as int)) is None,
{
    let n = cs.len();
    let mut j: usize = start;
    let mut out: Vec<char> = Vec::new();
    while j < n
        invariant
            start <= j <= n,
            n == cs@.len(),
            (match sp_scan_string(cs@.skip(j as int)) {
                Some((cm, rest)) => sp_scan_string(cs@.skip(start as int)) == Some(
                    (out@ + cm, rest),
                ),
                None => sp_scan_string(cs@.skip(start as int)) is None,
            }),
        decreases n - j,
    {
        let ghost pre = cs@.skip(j as int);
        proof {
            assert(pre[0] == cs@[j as int]);
        }
        let c = cs[j];
        if c == '"' {
            proof {
                assert(sp_scan_string(pre) == Some((Seq::<char>::empty(), cs@.skip(j as int + 1))))
                    by {
                    assert(pre.skip(1) =~= cs@.skip(j as int + 1));
                }
                assert(out@ + Seq::<char>::empty() =~= out@);
            }
            let content = crate::strutil::chars_to_string(&out);
            return Some((content, j + 1));
        }
        if c == '\\' && j + 1 < n && (cs[j + 1] == '"' || cs[j + 1] == '\\') {
            proof {
                assert(pre[1] == cs@[j as int + 1]);
                assert(pre.skip(2) =~= cs@.skip(j as int + 2));
            }
            out.push(cs[j + 1]);
            proof {
                match sp_scan_string(cs@.skip(j as int + 2)) {
                    Some((cm, rest)) => {
                        assert(out@.drop_last() + (seq![cs@[j as int + 1]] + cm) =~= out@ + cm);
                    },
                    None => {},
                }
            }
            j = j + 2;
        } else {
            proof {
                assert(pre.skip(1) =~= cs@.skip(j as int + 1));
            }
            out.push(c);
            proof {
                match sp_scan_string(cs@.skip(j as int + 1)) {
                    Some((cm, rest)) => {
                        assert(out@.drop_last() + (seq![cs@[j as int]] + cm) =~= out@ + cm);
                    },
                    None => {},
                }
            }
            j = j + 1;
        }
    }
    proof {
        assert(cs@.skip(j as int).len() == 0);
    }
    None
}

/// The position where the run of number characters starting at `start` ends.
fn scan_num_end(cs: &Vec<char>, start: usize) -> (j: usize)
    requires
        start <= cs@.len(),
    ensures
        start <= j <= cs@.len(),
        forall|k: int| start <= k < j ==> is_num_char(#[trigger] cs@[k]),
        j == cs@.len() || !is_num_char(cs@[j as int]),
{
    let n = cs.len();
    let mut j: usize = start;
    while j < n
        invariant
            start <= j <= n,
            n == cs@.len(),
            forall|k: int| start <= k < j ==> is_num_char(#[trigger] cs@[k]),
        decreases n - j,
    {
        if !is_num_char_exec(cs[j]) {
            return j;
        }
        j = j + 1;
    }
    j
}

/// How the dots lie in `cs[start..end]`: whether there is one, and whether
/// there is exactly one with at least two characters in the stretch.
fn scan_float_info(cs: &Vec<char>, start: usize, end: usize) -> (r: (bool, bool))
    requires
        start <= end <= cs@.len(),
    ensures
        r.0 == (exists|m: int| start <= m < end && #[trigger] cs@[m] == '.'),
        r.1 == (r.0 && end - start >= 2 && (forall|m1: int, m2: int|
            start <= m1 < end && start <= m2 < end && #[trigger] cs@[m1] == '.'
                && #[trigger] cs@[m2] == '.' ==> m1 == m2)),
{
    let mut found = false;
    let mut multi = false;
    let mut k: usize = start;
    while k < end
        invariant
            start <= k <= end <= cs@.len(),
            found == (exists|m: int| start <= m < k && #[trigger] cs@[m] == '.'),
            multi == (exists|m1: int, m2: int|
                start <= m1 < k && start <= m2 < k && m1 != m2 && #[trigger] cs@[m1] == '.'
                    && #[trigger] cs@[m2] == '.'),
        decreases end - k,
    {
        if cs[k] == '.' {
            if found {
                proof {
                    let m0 = choose|m: int| start <= m < k && #[trigger] cs@[m] == '.';
                    assert(cs@[m0] == '.' && cs@[k as int] == '.' && m0 != k as int);
                }
                multi = true;
            } else {
                proof {
                    assert(cs@[k as int] == '.');
                }
                found = true;
            }
        } else {
            proof {
                if exists|m: int| start <= m < k + 1 && #[trigger] cs@[m] == '.' {
                    let m0 = choose|m: int| start <= m < k + 1 && #[trigger] cs@[m] == '.';
                    assert(m0 < k);
                }
                if exists|m1: int, m2: int|
                    start <= m1 < k + 1 && start <= m2 < k + 1 && m1 != m2 && #[trigger] cs@[m1]
                        == '.' && #[trigger] cs@[m2] == '.' {
                    let (m1, m2) = choose|m1: int, m2: int|
                        start <= m1 < k + 1 && start <= m2 < k + 1 && m1 != m2 && #[trigger] cs@[m1]
                            == '.' && #[trigger] cs@[m2] == '.';
                    assert(m1 < k && m2 < k);
                }
            }
        }
        k = k + 1;
    }
    let two_plus = end - start >= 2;
    let valid = found && !multi && two_plus;
    (found, valid)
}

/// The machine value of the digit stretch `cs[start..end]`, or nothing when
/// it exceeds the machine's unsigned word.
fn parse_int(cs: &Vec<char>, start: usize, end: usize) -> (r: Option<usize>)
    requires
        start <= end <= cs@.len(),
        forall|k: int| start <= k < end ==> is_digit_char(#[trigger] cs@[k]),
    ensures
        ({
            let lx = cs@.subrange(start as int, end as int);
            match r {
                Some(v) => v as nat == dec_val(lx) && dec_val(lx) <= usize::MAX as nat,
                None => dec_val(lx) > usize::MAX as nat,
            }
        }),
{
    let ghost lx = cs@.subrange(start as int, end as int);
    let mut acc: usize = 0;
    let mut k: usize = start;
    while k < end
        invariant
            start <= k <= end <= cs@.len(),
            forall|m: int| start <= m < end ==> is_digit_char(#[trigger] cs@[m]),
            acc as nat == dec_val(cs@.subrange(start as int, k as int)),
        decreases end - k,
    {
        let c = cs[k];
        proof {
            assert(is_digit_char(cs@[k as int]));
        }
        let d = ((c as u32) - ('0' as u32)) as usize;
        let ghost sub_next = cs@.subrange(start as int, k as int + 1);
        proof {
            assert(sub_next.drop_last() =~= cs@.subrange(start as int, k as int));
            assert(sub_next.last() == cs@[k as int]);
            assert(dec_val(sub_next) == acc as nat * 10 + digit_val(cs@[k as int]));
        }
        let step = match acc.checked_mul(10) {
            Some(x) => x.checked_add(d),
            None => None,
        };
        match step {
            Some(v) => {
                acc = v;
            },
            None => {
                proof {
                    let lxfull = cs@.subrange(start as int, end as int);
                    assert(dec_val(sub_next) > usize::MAX as nat);
                    lemma_dec_val_prefix(lxfull, k as int + 1 - start);
                    assert(lxfull.take(k as int + 1 - start) =~= sub_next);
                }
                return None;
            },
        }
        k = k + 1;
    }
    proof {
        assert(cs@.subrange(start as int, end as int) =~= lx);
    }
    Some(acc)
}

/// Turns text into its token sequence, or reports the first lexical flaw.
/// The result is exactly what `sp_lex` says of the text.
#[verifier::rlimit(100)]
pub fn tokenize(text: &str) -> (r: Result<Vec<Token>, LexError>)
    ensures
        sp_lex(text@) matches Ok(tms) ==> r matches Ok(v) && tokens_view(v@) == tms,
        sp_lex(text@) matches Err(e) ==> r == Err::<Vec<Token>, LexError>(e),
{
    let cs = crate::strutil::str_to_chars(text);
    let n = cs.len();
    let mut toks: Vec<Token> = Vec::new();
    let mut i: usize = 0;
    proof {
        assert(cs@.skip(0) =~= cs@);
        match sp_lex(cs@) {
            Ok(tms) => {
                assert(tokens_view(toks@) + tms =~= tms);
            },
            Err(e) => {},
        }
    }
    while i < n
        invariant
            i <= n,
            n == cs@.len(),
            cs@ == text@,
            lex_rel(cs@, tokens_view(toks@), i as int),
        decreases n - i,
    {
        let ghost pre = cs@.skip(i as int);
        let ghost done = tokens_view(toks@);
        proof {
            assert(pre[0] == cs@[i as int]);
            assert(pre.len() == n - i);
        }
        let c = cs[i];
        if c == ' ' || c == '\t' || c == '\n' {
            proof {
                assert(pre.skip(1) =~= cs@.skip(i as int + 1));
            }
            i = i + 1;
        } else if c == '"' {
            match scan_string(&cs, i + 1) {
                Some((content, end)) => {
                    proof {
                        assert(pre.skip(1) =~= cs@.skip(i as int + 1));
                        assert(sp_lex(pre) == lex_cons(
                            TokenM::Str(content@),
                            sp_lex(cs@.skip(end as int)),
                        ));
                        lemma_lex_rel_step(
                            cs@,
                            done,
                            i as int,
                            end - i,
                            TokenM::Str(content@),
                        );
                        lemma_tokens_view_push(toks@, Token::Str(content));
                    }
                    toks.push(Token::Str(content));
                    i = end;
                },
                None => {
                    proof {
                        assert(pre.skip(1) =~= cs@.skip(i as int + 1));
                        assert(sp_lex(pre) == Err::<Seq<TokenM>, LexError>(
                            LexError::UnterminatedString,
                        ));
                    }
                    return Err(LexError::UnterminatedString);
                },
            }
        } else if c == ':' {
            proof {
                assert(pre.skip(1) =~= cs@.skip(i as int + 1));
                lemma_lex_rel_step(cs@, done, i as int, 1, TokenM::Colon);
                lemma_tokens_view_push(toks@, Token::Colon);
            }
            toks.push(Token::Colon);
            i = i + 1;
        } else if c == ',' {
            proof {
                assert(pre.skip(1) =~= cs@.skip(i as int + 1));
                lemma_lex_rel_step(cs@, done, i as int, 1, TokenM::Comma);
                lemma_tokens_view_push(toks@, Token::Comma);
            }
            toks.push(Token::Comma);
            i = i + 1;
        } else if c == '{' {
            proof {
                assert(pre.skip(1) =~= cs@.skip(i as int + 1));
                lemma_lex_rel_step(cs@, done, i as int, 1, TokenM::OpenBrace);
                lemma_tokens_view_push(toks@, Token::OpenBrace);
            }
            toks.push(Token::OpenBrace);
            i = i + 1;
        } else if c == '}' {
            proof {
                assert(pre.skip(1) =~= cs@.skip(i as int + 1));
                lemma_lex_rel_step(cs@, done, i as int, 1, TokenM::CloseBrace);
                lemma_tokens_view_push(toks@, Token::CloseBrace);
            }
            toks.push(Token::CloseBrace);
            i = i + 1;
        } else if c == '[' {
            proof {
                assert(pre.skip(1) =~= cs@.skip(i as int + 1));
                lemma_lex_rel_step(cs@, done, i as int, 1, TokenM::OpenBracket);
                lemma_tokens_view_push(toks@, Token::OpenBracket);
            }
            toks.push(Token::OpenBracket);
            i = i + 1;
        } else if c == ']' {
            proof {
                assert(pre.skip(1) =~= cs@.skip(i as int + 1));
                lemma_lex_rel_step(cs@, done, i as int, 1, TokenM::CloseBracket);
                lemma_tokens_view_push(toks@, Token::CloseBracket);
            }
            toks.push(Token::CloseBracket);
            i = i + 1;
        } else if is_num_char_exec(c) {
            let j = scan_num_end(&cs, i);
            proof {
                assert forall|k: int| 0 <= k < j - i implies is_num_char(#[trigger] pre[k]) by {
                    assert(pre[k] == cs@[i + k]);
                }
                if j < n {
                    assert(pre[j - i] == cs@[j as int]);
                }
                lemma_num_split_at(pre, j - i);
                assert(pre.take(j - i) =~= cs@.subrange(i as int, j as int));
                assert(pre.skip(j - i) =~= cs@.skip(j as int));
            }
            let ghost lx = cs@.subrange(i as int, j as int);
            if j == n {
                proof {
                    assert(sp_lex(pre) == Err::<Seq<TokenM>, LexError>(
                        LexError::UnterminatedNumber,
                    ));
                }
                return Err(LexError::UnterminatedNumber);
            }
            let (found_dot, valid_f) = scan_float_info(&cs, i, j);
            proof {
                assert(has_dot(lx) == found_dot) by {
                    if found_dot {
                        let m0 = choose|m: int| i <= m < j && #[trigger] cs@[m] == '.';
                        assert(lx[m0 - i] == '.');
                    }
                    if has_dot(lx) {
                        let p = choose|p: int| 0 <= p < lx.len() && #[trigger] lx[p] == '.';
                        assert(cs@[i + p] == '.');
                    }
                }
            }
            if found_dot {
                proof {
                    assert(valid_float_lexeme(lx) == valid_f) by {
                        if valid_f {
                            assert forall|p1: int, p2: int|
                                0 <= p1 < lx.len() && 0 <= p2 < lx.len() && #[trigger] lx[p1] == '.'
                                    && #[trigger] lx[p2] == '.' implies p1 == p2 by {
                                assert(cs@[i + p1] == '.' && cs@[i + p2] == '.');
                            }
                            let m0 = choose|m: int| i <= m < j && #[trigger] cs@[m] == '.';
                            assert(lx[m0 - i] == '.');
                            assert forall|p: int| 0 <= p < lx.len() implies is_num_char(
                                #[trigger] lx[p],
                            ) by {
                                assert(pre[p] == lx[p]);
                            }
                        } else {
                            if valid_float_lexeme(lx) {
                                assert(lx.len() >= 2);
                                if !(forall|m1: int, m2: int|
                                    i <= m1 < j && i <= m2 < j && #[trigger] cs@[m1] == '.'
                                        && #[trigger] cs@[m2] == '.' ==> m1 == m2) {
                                    let (m1, m2) = choose|m1: int, m2: int|
                                        i <= m1 < j && i <= m2 < j && #[trigger] cs@[m1] == '.'
                                            && #[trigger] cs@[m2] == '.' && m1 != m2;
                                    assert(lx[m1 - i] == '.' && lx[m2 - i] == '.');
                                }
                            }
                        }
                    }
                }
                if valid_f {
                    let lxs = crate::strutil::substring_chars(&cs, i, j);
                    proof {
                        assert(sp_lex(pre) == lex_cons(
                            TokenM::Float(lx),
                            sp_lex(cs@.skip(j as int)),
                        ));
                        lemma_lex_rel_step(cs@, done, i as int, j - i, TokenM::Float(lx));
                        lemma_tokens_view_push(toks@, Token::Float(lxs));
                    }
                    toks.push(Token::Float(lxs));
                    i = j;
                } else {
                    proof {
                        assert(sp_lex(pre) == Err::<Seq<TokenM>, LexError>(
                            LexError::MalformedNumber,
                        ));
                    }
                    return Err(LexError::MalformedNumber);
                }
            } else {
                proof {
                    assert forall|k: int| i <= k < j implies is_digit_char(#[trigger] cs@[k]) by {
                        assert(is_num_char(cs@[k]));
                        assert(lx[k - i] == cs@[k]);
                    }
                }
                match parse_int(&cs, i, j) {
                    Some(v) => {
                        proof {
                            assert(sp_lex(pre) == lex_cons(
                                TokenM::Int(dec_val(lx) as usize),
                                sp_lex(cs@.skip(j as int)),
                            ));
                            assert(v == dec_val(lx) as usize);
                            lemma_lex_rel_step(cs@, done, i as int, j - i, TokenM::Int(v));
                            lemma_tokens_view_push(toks@, Token::Int(v));
                        }
                        toks.push(Token::Int(v));
                        i = j;
                    },
                    None => {
                        proof {
                            assert(sp_lex(pre) == Err::<Seq<TokenM>, LexError>(
                                LexError::IntegerOverflow,
                            ));
                        }
                        return Err(LexError::IntegerOverflow);
                    },
                }
            }
        } else if c == 't' {
            if n - i >= 4 && cs[i + 1] == 'r' && cs[i + 2] == 'u' && cs[i + 3] == 'e' {
                proof {
                    assert(pre.take(4) =~= seq!['t', 'r', 'u', 'e']) by {
                        assert(pre[1] == cs@[i as int + 1]);
                        assert(pre[2] == cs@[i as int + 2]);
                        assert(pre[3] == cs@[i as int + 3]);
                    }
                    assert(pre.skip(4) =~= cs@.skip(i as int + 4));
                    lemma_lex_rel_step(cs@, done, i as int, 4, TokenM::Bool(true));
                    lemma_tokens_view_push(toks@, Token::Bool(true));
                }
                toks.push(Token::Bool(true));
                i = i + 4;
            } else {
                proof {
                    if pre.len() >= 4 && pre.take(4) == seq!['t', 'r', 'u', 'e'] {
                        assert(pre.take(4)[1] == pre[1] && pre[1] == cs@[i as int + 1]);
                        assert(pre.take(4)[2] == pre[2] && pre[2] == cs@[i as int + 2]);
                        assert(pre.take(4)[3] == pre[3] && pre[3] == cs@[i as int + 3]);
                    }
                }
                return Err(LexError::UnknownLiteral);
            }
        } else if c == 'f' {
            if n - i >= 5 && cs[i + 1] == 'a' && cs[i + 2] == 'l' && cs[i + 3] == 's' && cs[i + 4]
                == 'e' {
                proof {
                    assert(pre.take(5) =~= seq!['f', 'a', 'l', 's', 'e']) by {
                        assert(pre[1] == cs@[i as int + 1]);
                        assert(pre[2] == cs@[i as int + 2]);
                        assert(pre[3] == cs@[i as int + 3]);
                        assert(pre[4] == cs@[i as int + 4]);
                    }
                    assert(pre.skip(5) =~= cs@.skip(i as int + 5));
                    lemma_lex_rel_step(cs@, done, i as int, 5, TokenM::Bool(false));
                    lemma_tokens_view_push(toks@, Token::Bool(false));
                }
                toks.push(Token::Bool(false));
                i = i + 5;
            } else {
                proof {
                    if pre.len() >= 5 && pre.take(5) == seq!['f', 'a', 'l', 's', 'e'] {
                        assert(pre.take(5)[1] == pre[1] && pre[1] == cs@[i as int + 1]);
                        assert(pre.take(5)[2] == pre[2] && pre[2] == cs@[i as int + 2]);
                        assert(pre.take(5)[3] == pre[3] && pre[3] == cs@[i as int + 3]);
                        assert(pre.take(5)[4] == pre[4] && pre[4] == cs@[i as int + 4]);
                    }
                }
                return Err(LexError::UnknownLiteral);
            }
        } else if c == 'n' {
            if n - i >= 4 && cs[i + 1] == 'u' && cs[i + 2] == 'l' && cs[i + 3] == 'l' {
                proof {
                    assert(pre.take(4) =~= seq!['n', 'u', 'l', 'l']) by {
                        assert(pre[1] == cs@[i as int + 1]);
                        assert(pre[2] == cs@[i as int + 2]);
                        assert(pre[3] == cs@[i as int + 3]);
                    }
                    assert(pre.skip(4) =~= cs@.skip(i as int + 4));
                    lemma_lex_rel_step(cs@, done, i as int, 4, TokenM::Null);
                    lemma_tokens_view_push(toks@, Token::Null);
                }
                toks.push(Token::Null);
                i = i + 4;
            } else {
                proof {
                    if pre.len() >= 4 && pre.take(4) == seq!['n', 'u', 'l', 'l'] {
                        assert(pre.take(4)[1] == pre[1] && pre[1] == cs@[i as int + 1]);
                        assert(pre.take(4)[2] == pre[2] && pre[2] == cs@[i as int + 2]);
                        assert(pre.take(4)[3] == pre[3] && pre[3] == cs@[i as int + 3]);
                    }
                }
                return Err(LexError::UnknownLiteral);
            }
        } else {
            return Err(LexError::UnexpectedChar);
        }
    }
    proof {
        assert(cs@.skip(n as int).len() == 0);
        match sp_lex(cs@) {
            Ok(tms) => {
                assert(tokens_view(toks@) + Seq::<TokenM>::empty() =~= tokens_view(toks@));
            },
            Err(e) => {},
        }
    }
    Ok(toks)
}

} // verus!
