//! The mathematical model of documents and of their rendered text.
//!
//! A document is a sequence of labelled entries; a value is the tagged union
//! of the scalar and composite shapes the grammar knows. Rendering is defined
//! here as a pure function from the model to a character sequence; the
//! executable renderer is proved to compute it, and the parser is proved to
//! invert it (see `laws`).

use vstd::prelude::*;

verus! {

/// Model of a value: what one node of the document tree denotes.
///
/// A `Float` holds the decimal text of the number (digits with exactly one
/// dot), not an approximation of it, so rendering reproduces the source
/// exactly; see `valid_float_lexeme`.
pub ghost enum ValueM {
    Str(Seq<char>),
    Int(usize),
    Float(Seq<char>),
    Bool(bool),
    Null,
    List(Seq<ValueM>),
    Obj(Seq<EntryM>),
}

/// Model of an entry: a label paired with a value.
pub ghost struct EntryM {
    pub label: Seq<char>,
    pub value: ValueM,
}

// ===== character classes =====

/// Whitespace the tokenizer skips between tokens.
pub open spec fn is_ws_char(c: char) -> bool {
    c == ' ' || c == '\t' || c == '\n'
}

pub open spec fn is_digit_char(c: char) -> bool {
    '0' as u32 <= c as u32 && c as u32 <= '9' as u32
}

/// Characters that may continue a number: digits and the decimal dot.
pub open spec fn is_num_char(c: char) -> bool {
    is_digit_char(c) || c == '.'
}

/// Some character of the run is a decimal dot.
pub open spec fn has_dot(s: Seq<char>) -> bool {
    exists|i: int| 0 <= i < s.len() && #[trigger] s[i] == '.'
}

pub open spec fn digit_val(c: char) -> nat
    recommends
        is_digit_char(c),
{
    (c as u32 - '0' as u32) as nat
}

pub open spec fn digit_char(d: nat) -> char
    recommends
        d < 10,
{
    if d == 0 {
        '0'
    } else if d == 1 {
        '1'
    } else if d == 2 {
        '2'
    } else if d == 3 {
        '3'
    } else if d == 4 {
        '4'
    } else if d == 5 {
        '5'
    } else if d == 6 {
        '6'
    } else if d == 7 {
        '7'
    } else if d == 8 {
        '8'
    } else {
        '9'
    }
}

/// The numeric value of a digit string, most significant digit first.
pub open spec fn dec_val(s: Seq<char>) -> nat
    decreases s.len(),
{
    if s.len() == 0 {
        0
    } else {
        dec_val(s.drop_last()) * 10 + digit_val(s.last())
    }
}

/// The canonical decimal rendering of a number: no sign, no leading zeros.
pub open spec fn dec_str(n: nat) -> Seq<char>
    decreases n,
{
    if n < 10 {
        seq![digit_char(n)]
    } else {
        dec_str(n / 10).push(digit_char(n % 10))
    }
}

/// A stored float is the decimal text itself: characters from `[0-9.]` with
/// exactly one dot and at least one digit. This is exactly what the
/// tokenizer accepts as a float, so rendering it verbatim round-trips.
pub open spec fn valid_float_lexeme(s: Seq<char>) -> bool {
    &&& s.len() >= 2
    &&& forall|i: int| 0 <= i < s.len() ==> is_num_char(#[trigger] s[i])
    &&& exists|i: int| 0 <= i < s.len() && #[trigger] s[i] == '.'
    &&& forall|i: int, j: int|
        0 <= i < s.len() && 0 <= j < s.len() && #[trigger] s[i] == '.' && #[trigger] s[j] == '.'
            ==> i == j
}

// ===== escaping =====

/// How one character of a string or label is rendered: backslashes and
/// quotes get a backslash prefix, everything else stands as itself.
pub open spec fn escape_char(c: char) -> Seq<char> {
    if c == '\\' {
        seq!['\\', '\\']
    } else if c == '"' {
        seq!['\\', '"']
    } else {
        seq![c]
    }
}

/// The rendered form of string content: each character escaped.
pub open spec fn escape_str(s: Seq<char>) -> Seq<char>
    decreases s.len(),
{
    if s.len() == 0 {
        Seq::empty()
    } else {
        escape_char(s[0]) + escape_str(s.skip(1))
    }
}

/// Escaping distributes over concatenation.
pub proof fn lemma_escape_app(a: Seq<char>, b: Seq<char>)
    ensures
        escape_str(a + b) == escape_str(a) + escape_str(b),
    decreases a.len(),
{
    if a.len() == 0 {
        assert(a + b =~= b);
        assert(escape_str(a) + escape_str(b) =~= escape_str(b));
    } else {
        assert((a + b)[0] == a[0]);
        assert((a + b).skip(1) =~= a.skip(1) + b);
        lemma_escape_app(a.skip(1), b);
        assert(escape_char(a[0]) + (escape_str(a.skip(1)) + escape_str(b)) =~= (escape_char(a[0])
            + escape_str(a.skip(1))) + escape_str(b));
    }
}

/// The escaping of a single character.
pub proof fn lemma_escape_one(c: char)
    ensures
        escape_str(seq![c]) == escape_char(c),
{
    assert(seq![c].skip(1) =~= Seq::<char>::empty());
    assert(escape_char(c) + escape_str(seq![c].skip(1)) =~= escape_char(c));
}

// ===== rendering =====

/// The compact text of a value.
pub open spec fn render_value(v: ValueM) -> Seq<char>
    decreases v,
{
    match v {
        ValueM::Str(s) => seq!['"'] + escape_str(s) + seq!['"'],
        ValueM::Int(n) => dec_str(n as nat),
        ValueM::Float(lx) => lx,
        ValueM::Bool(b) => if b {
            seq!['t', 'r', 'u', 'e']
        } else {
            seq!['f', 'a', 'l', 's', 'e']
        },
        ValueM::Null => seq!['n', 'u', 'l', 'l'],
        ValueM::List(items) => seq!['['] + render_items(items) + seq![']'],
        ValueM::Obj(es) => seq!['{'] + render_entries(es) + seq!['}'],
    }
}

/// List elements joined by commas, with no trailing separator.
pub open spec fn render_items(items: Seq<ValueM>) -> Seq<char>
    decreases items,
{
    if items.len() == 0 {
        Seq::empty()
    } else if items.len() == 1 {
        render_value(items[0])
    } else {
        render_value(items[0]) + seq![','] + render_items(items.skip(1))
    }
}

/// One entry: quoted escaped label, colon, value.
pub open spec fn render_entry(e: EntryM) -> Seq<char>
    decreases e,
{
    seq!['"'] + escape_str(e.label) + seq!['"', ':'] + render_value(e.value)
}

/// Object entries joined by commas, with no trailing separator.
pub open spec fn render_entries(es: Seq<EntryM>) -> Seq<char>
    decreases es,
{
    if es.len() == 0 {
        Seq::empty()
    } else if es.len() == 1 {
        render_entry(es[0])
    } else {
        render_entry(es[0]) + seq![','] + render_entries(es.skip(1))
    }
}

/// The compact text of a whole document.
pub open spec fn render_doc(es: Seq<EntryM>) -> Seq<char> {
    seq!['{'] + render_entries(es) + seq!['}']
}

// ===== validity of model values =====

/// A model value is well formed when every float lexeme in it is valid
/// decimal text. Nothing else is restricted: labels and strings may hold
/// any characters (the renderer escapes them).
pub open spec fn wf_value(v: ValueM) -> bool
    decreases v,
{
    match v {
        ValueM::Float(lx) => valid_float_lexeme(lx),
        ValueM::List(items) => wf_items(items),
        ValueM::Obj(es) => wf_entries(es),
        _ => true,
    }
}

pub open spec fn wf_items(items: Seq<ValueM>) -> bool
    decreases items,
{
    if items.len() == 0 {
        true
    } else {
        wf_value(items[0]) && wf_items(items.skip(1))
    }
}

pub open spec fn wf_entries(es: Seq<EntryM>) -> bool
    decreases es,
{
    if es.len() == 0 {
        true
    } else {
        wf_value(es[0].value) && wf_entries(es.skip(1))
    }
}

/// Well-formedness of a value sequence is pointwise.
pub proof fn lemma_wf_items_pointwise(vs: Seq<ValueM>)
    ensures
        wf_items(vs) <==> (forall|i: int| 0 <= i < vs.len() ==> wf_value(#[trigger] vs[i])),
    decreases vs.len(),
{
    if vs.len() > 0 {
        lemma_wf_items_pointwise(vs.skip(1));
        let tl = vs.skip(1);
        assert(forall|i: int| 0 <= i < tl.len() ==> #[trigger] tl[i] == vs[i + 1]);
        if wf_items(vs) {
            assert forall|i: int| 0 <= i < vs.len() implies wf_value(#[trigger] vs[i]) by {
                if i > 0 {
                    assert(tl[i - 1] == vs[i]);
                }
            }
        } else {
            if forall|i: int| 0 <= i < vs.len() ==> wf_value(#[trigger] vs[i]) {
                assert forall|i: int| 0 <= i < tl.len() implies wf_value(#[trigger] tl[i]) by {
                    assert(tl[i] == vs[i + 1]);
                }
                assert(wf_value(vs[0]));
                assert(false);
            }
        }
    }
}

/// Well-formedness of an entry sequence is pointwise.
pub proof fn lemma_wf_entries_pointwise(es: Seq<EntryM>)
    ensures
        wf_entries(es) <==> (forall|i: int|
            0 <= i < es.len() ==> wf_value(#[trigger] es[i].value)),
    decreases es.len(),
{
    if es.len() > 0 {
        lemma_wf_entries_pointwise(es.skip(1));
        let tl = es.skip(1);
        assert(forall|i: int| 0 <= i < tl.len() ==> #[trigger] tl[i] == es[i + 1]);
        if wf_entries(es) {
            assert forall|i: int| 0 <= i < es.len() implies wf_value(#[trigger] es[i].value) by {
                if i > 0 {
                    assert(tl[i - 1] == es[i]);
                }
            }
        } else {
            if forall|i: int| 0 <= i < es.len() ==> wf_value(#[trigger] es[i].value) {
                assert forall|i: int|
                    0 <= i < tl.len() implies wf_value(#[trigger] tl[i].value) by {
                    assert(tl[i] == es[i + 1]);
                }
                assert(wf_value(es[0].value));
                assert(false);
            }
        }
    }
}

// ===== lookup on the model =====

/// Some entry carries this label.
pub open spec fn sp_has(es: Seq<EntryM>, l: Seq<char>) -> bool {
    exists|i: int| 0 <= i < es.len() && #[trigger] es[i].label == l
}

/// The position of the first entry with this label, if any.
pub open spec fn sp_find(es: Seq<EntryM>, l: Seq<char>) -> Option<nat>
    decreases es.len(),
{
    if es.len() == 0 {
        None
    } else if es[0].label == l {
        Some(0nat)
    } else {
        match sp_find(es.skip(1), l) {
            None => None,
            Some(k) => Some((k + 1) as nat),
        }
    }
}

/// The label index a well-formed document maintains: the labels of the
/// entries in order of first occurrence, each once.
pub open spec fn sp_index(es: Seq<EntryM>) -> Seq<Seq<char>>
    decreases es.len(),
{
    if es.len() == 0 {
        Seq::empty()
    } else {
        let pre = sp_index(es.drop_last());
        if pre.contains(es.last().label) {
            pre
        } else {
            pre.push(es.last().label)
        }
    }
}

/// What `sp_find` returns is the first match, and it returns `None` exactly
/// when no entry has the label.
pub proof fn lemma_find_spec(es: Seq<EntryM>, l: Seq<char>)
    ensures
        sp_find(es, l) matches Some(k) ==> k < es.len() && es[k as int].label == l && forall|j: int|
            0 <= j < k ==> (#[trigger] es[j].label) != l,
        sp_find(es, l) is None <==> !sp_has(es, l),
    decreases es.len(),
{
    if es.len() == 0 {
        assert(!sp_has(es, l));
    } else if es[0].label == l {
        assert(sp_has(es, l));
    } else {
        let tail = es.skip(1);
        lemma_find_spec(tail, l);
        assert(forall|i: int| 0 <= i < tail.len() ==> #[trigger] tail[i] == es[i + 1]);
        match sp_find(tail, l) {
            None => {
                assert forall|i: int| 0 <= i < es.len() implies (#[trigger] es[i].label) != l by {
                    if i > 0 {
                        assert(tail[i - 1] == es[i]);
                        assert(tail[i - 1].label != l);
                    }
                }
                assert(!sp_has(es, l));
            },
            Some(k1) => {
                assert(es[k1 as int + 1].label == l);
                assert(sp_has(es, l));
                assert forall|j: int| 0 <= j < k1 + 1 implies (#[trigger] es[j].label) != l by {
                    if j > 0 {
                        assert(tail[j - 1] == es[j]);
                        assert(tail[j - 1].label != l);
                    }
                }
            },
        }
    }
}

/// An entry with the label, with none before it, is the one `sp_find` names.
pub proof fn lemma_find_at(es: Seq<EntryM>, l: Seq<char>, k: int)
    requires
        0 <= k < es.len(),
        es[k].label == l,
        forall|j: int| 0 <= j < k ==> (#[trigger] es[j].label) != l,
    ensures
        sp_find(es, l) == Some(k as nat),
    decreases es.len(),
{
    if k == 0 {
    } else {
        let tail = es.skip(1);
        assert(forall|i: int| 0 <= i < tail.len() ==> #[trigger] tail[i] == es[i + 1]);
        lemma_find_at(tail, l, k - 1);
    }
}

/// The label index depends on the labels alone: entry sequences with
/// pointwise equal labels have the same index.
pub proof fn lemma_index_same_labels(a: Seq<EntryM>, b: Seq<EntryM>)
    requires
        a.len() == b.len(),
        forall|i: int| 0 <= i < a.len() ==> (#[trigger] a[i].label) == b[i].label,
    ensures
        sp_index(a) == sp_index(b),
    decreases a.len(),
{
    if a.len() > 0 {
        assert forall|i: int|
            0 <= i < a.drop_last().len() implies (#[trigger] a.drop_last()[i].label)
            == b.drop_last()[i].label by {
            assert(a[i].label == b[i].label);
        }
        lemma_index_same_labels(a.drop_last(), b.drop_last());
        assert(a.last().label == b.last().label);
    }
}

/// The label index contains a label exactly when some entry carries it.
pub proof fn lemma_index_membership(es: Seq<EntryM>, l: Seq<char>)
    ensures
        sp_index(es).contains(l) <==> sp_has(es, l),
    decreases es.len(),
{
    if es.len() == 0 {
        assert(!sp_has(es, l));
    } else {
        let pre = es.drop_last();
        let last = es.last();
        lemma_index_membership(pre, l);
        assert(sp_has(es, l) <==> (sp_has(pre, l) || last.label == l)) by {
            if sp_has(pre, l) {
                let i = choose|i: int| 0 <= i < pre.len() && #[trigger] pre[i].label == l;
                assert(es[i].label == l);
            }
            if last.label == l {
                assert(es[es.len() - 1].label == l);
            }
            if sp_has(es, l) {
                let i = choose|i: int| 0 <= i < es.len() && #[trigger] es[i].label == l;
                if i < es.len() - 1 {
                    assert(pre[i].label == l);
                }
            }
        }
        if sp_index(pre).contains(last.label) {
            assert(sp_index(es) == sp_index(pre));
            lemma_index_membership(pre, last.label);
            assert(sp_has(pre, last.label));
        } else {
            let ix = sp_index(pre).push(last.label);
            assert(sp_index(es) == ix);
            assert(ix.contains(l) <==> (sp_index(pre).contains(l) || last.label == l)) by {
                if sp_index(pre).contains(l) {
                    let j = choose|j: int| 0 <= j < sp_index(pre).len() && #[trigger] sp_index(pre)[j] == l;
                    assert(ix[j] == l);
                }
                if last.label == l {
                    assert(ix[ix.len() - 1] == l);
                }
                if ix.contains(l) {
                    let j = choose|j: int| 0 <= j < ix.len() && #[trigger] ix[j] == l;
                    if j < sp_index(pre).len() {
                        assert(sp_index(pre)[j] == l);
                    }
                }
            }
        }
    }
}

} // verus!
