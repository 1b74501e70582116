//! The renderer: turns a document tree back into compact text.
//!
//! Rendering is total: any tree renders, and the result is proved to be
//! exactly the model rendering `render_doc` of the tree's view.

use vstd::prelude::*;
use vstd::string::StrSliceExecFns;

use crate::doc::{entries_view, lemma_entries_view, lemma_values_view, value_view, values_view,
    Json, Node, NodeContent};
use crate::model::{
    dec_str, digit_char, escape_char, escape_str, lemma_escape_app, lemma_escape_one, render_doc,
    render_entries, render_entry, render_items, render_value,
};
use crate::strutil::chars_to_string;

verus! {

/// The character of one decimal digit.
fn digit_to_char(d: usize) -> (c: char)
    requires
        d < 10,
    ensures
        c == digit_char(d as nat),
{
    if d == 0 {
        '0'
    } else if d == 1 {
        '1'
    } else if d == 2 {
        '2'
    } else if d == 3 {
        '3'
    } else if d == 4 {
        '4'
    } else if d == 5 {
        '5'
    } else if d == 6 {
        '6'
    } else if d == 7 {
        '7'
    } else if d == 8 {
        '8'
    } else {
        '9'
    }
}

/// Appends the decimal digits of `n`, most significant first.
fn write_usize(n: usize, out: &mut Vec<char>)
    ensures
        final(out)@ == old(out)@ + dec_str(n as nat),
    decreases n,
{
    if n < 10 {
        out.push(digit_to_char(n));
        proof {
            assert(final(out)@ =~= old(out)@ + dec_str(n as nat));
        }
    } else {
        write_usize(n / 10, out);
        out.push(digit_to_char(n % 10));
        proof {
            assert(final(out)@ =~= old(out)@ + dec_str(n as nat));
        }
    }
}

/// Appends the characters of `s` unchanged.
fn write_raw(s: &str, out: &mut Vec<char>)
    ensures
        final(out)@ == old(out)@ + s@,
{
    let n = s.unicode_len();
    let mut i: usize = 0;
    while i < n
        invariant
            i <= n,
            n == s@.len(),
            out@ == old(out)@ + s@.take(i as int),
        decreases n - i,
    {
        out.push(s.get_char(i));
        proof {
            assert(old(out)@ + s@.take(i as int + 1) =~= (old(out)@ + s@.take(i as int)).push(
                s@[i as int],
            ));
        }
        i = i + 1;
    }
    proof {
        assert(s@.take(n as int) =~= s@);
    }
}

/// Appends the characters of `s` with backslashes and quotes escaped.
fn write_escaped(s: &str, out: &mut Vec<char>)
    ensures
        final(out)@ == old(out)@ + escape_str(s@),
{
    let n = s.unicode_len();
    let mut i: usize = 0;
    while i < n
        invariant
            i <= n,
            n == s@.len(),
            out@ == old(out)@ + escape_str(s@.take(i as int)),
        decreases n - i,
    {
        let c = s.get_char(i);
        proof {
            assert(s@.take(i as int + 1) =~= s@.take(i as int) + seq![s@[i as int]]);
            lemma_escape_app(s@.take(i as int), seq![s@[i as int]]);
            lemma_escape_one(s@[i as int]);
        }
        if c == '\\' {
            out.push('\\');
            out.push('\\');
        } else if c == '"' {
            out.push('\\');
            out.push('"');
        } else {
            out.push(c);
        }
        proof {
            assert(out@ =~= old(out)@ + escape_str(s@.take(i as int + 1)));
        }
        i = i + 1;
    }
    proof {
        assert(s@.take(n as int) =~= s@);
    }
}

/// Appends the compact text of one value.
fn write_value(c: &NodeContent, out: &mut Vec<char>)
    ensures
        final(out)@ == old(out)@ + render_value(value_view(*c)),
    decreases *c, 0nat,
{
    match c {
        NodeContent::Str(s) => {
            out.push('"');
            write_escaped(s.as_str(), out);
            out.push('"');
            proof {
                assert(out@ =~= old(out)@ + render_value(value_view(*c)));
            }
        },
        NodeContent::Int(n) => {
            write_usize(*n, out);
        },
        NodeContent::Float(lx) => {
            write_raw(lx.as_str(), out);
        },
        NodeContent::Bool(b) => {
            if *b {
                out.push('t');
                out.push('r');
                out.push('u');
                out.push('e');
            } else {
                out.push('f');
                out.push('a');
                out.push('l');
                out.push('s');
                out.push('e');
            }
            proof {
                assert(out@ =~= old(out)@ + render_value(value_view(*c)));
            }
        },
        NodeContent::Null => {
            out.push('n');
            out.push('u');
            out.push('l');
            out.push('l');
            proof {
                assert(out@ =~= old(out)@ + render_value(value_view(*c)));
            }
        },
        NodeContent::List(items) => {
            out.push('[');
            write_items_from(items, 0, out);
            out.push(']');
            proof {
                assert(values_view(items@).skip(0) =~= values_view(items@));
                assert(out@ =~= old(out)@ + render_value(value_view(*c)));
            }
        },
        NodeContent::Json(j) => {
            out.push('{');
            write_entries_from(&j.nodes, 0, out);
            out.push('}');
            proof {
                assert(entries_view(j.nodes@).skip(0) =~= entries_view(j.nodes@));
                assert(out@ =~= old(out)@ + render_value(value_view(*c)));
            }
        },
    }
}

/// Appends the elements from position `i` on, joined by commas.
fn write_items_from(items: &Vec<NodeContent>, i: usize, out: &mut Vec<char>)
    requires
        i <= items@.len(),
    ensures
        final(out)@ == old(out)@ + render_items(values_view(items@).skip(i as int)),
    decreases *items, items@.len() - i,
{
    proof {
        lemma_values_view(items@);
    }
    let ghost vs = values_view(items@);
    if i < items.len() {
        write_value(&items[i], out);
        proof {
            assert(vs.skip(i as int)[0] == vs[i as int]);
        }
        if i + 1 < items.len() {
            out.push(',');
            write_items_from(items, i + 1, out);
            proof {
                assert(vs.skip(i as int).skip(1) =~= vs.skip(i as int + 1));
                assert(out@ =~= old(out)@ + render_items(vs.skip(i as int)));
            }
        } else {
            proof {
                assert(vs.skip(i as int).len() == 1);
                assert(out@ =~= old(out)@ + render_items(vs.skip(i as int)));
            }
        }
    } else {
        proof {
            assert(vs.skip(i as int).len() == 0);
            assert(out@ =~= old(out)@ + render_items(vs.skip(i as int)));
        }
    }
}

/// Appends the entries from position `i` on, joined by commas.
fn write_entries_from(ns: &Vec<Node>, i: usize, out: &mut Vec<char>)
    requires
        i <= ns@.len(),
    ensures
        final(out)@ == old(out)@ + render_entries(entries_view(ns@).skip(i as int)),
    decreases *ns, ns@.len() - i,
{
    proof {
        lemma_entries_view(ns@);
    }
    let ghost es = entries_view(ns@);
    if i < ns.len() {
        out.push('"');
        write_escaped(ns[i].label.as_str(), out);
        out.push('"');
        out.push(':');
        write_value(&ns[i].content, out);
        proof {
            assert(es.skip(i as int)[0] == es[i as int]);
            assert(render_entry(es[i as int]) == seq!['"'] + escape_str(ns@[i as int].label@)
                + seq!['"', ':'] + render_value(value_view(ns@[i as int].content)));
        }
        if i + 1 < ns.len() {
            out.push(',');
            write_entries_from(ns, i + 1, out);
            proof {
                assert(es.skip(i as int).skip(1) =~= es.skip(i as int + 1));
                assert(out@ =~= old(out)@ + render_entries(es.skip(i as int)));
            }
        } else {
            proof {
                assert(es.skip(i as int).len() == 1);
                assert(out@ =~= old(out)@ + render_entries(es.skip(i as int)));
            }
        }
    } else {
        proof {
            assert(es.skip(i as int).len() == 0);
            assert(out@ =~= old(out)@ + render_entries(es.skip(i as int)));
        }
    }
}

impl Json {
    /// The compact text of one value, as the renderer would embed it in a
    /// document.
    pub fn renderContent(object: &NodeContent) -> (r: String)
        ensures
            r@ == render_value(object@),
    {
        let mut out: Vec<char> = Vec::new();
        write_value(object, &mut out);
        chars_to_string(&out)
    }

    /// The compact text of the document: entries in order, no whitespace,
    /// labels and strings quoted and escaped.
    pub fn toString(&self) -> (r: String)
        ensures
            r@ == render_doc(self@),
    {
        let mut out: Vec<char> = Vec::new();
        out.push('{');
        write_entries_from(&self.nodes, 0, &mut out);
        out.push('}');
        proof {
            assert(entries_view(self.nodes@).skip(0) =~= entries_view(self.nodes@));
            assert(out@ =~= render_doc(self@));
        }
        chars_to_string(&out)
    }

    /// The rendered text of the document, encoded as its bytes.
    pub fn bytes(&self) -> (r: Vec<u8>)
        ensures
            r@ == vstd::utf8::encode_utf8(render_doc(self@)),
    {
        let s = self.toString();
        s.as_str().as_bytes_vec()
    }
}

} // verus!
