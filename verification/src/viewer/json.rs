//! Writing JSON.

use vstd::prelude::*;
use crate::text;
use crate::text::{chars_of, push_decimal, push_hex};

verus! {

/// What one character is written as inside a JSON string.
pub open spec fn escape(c: char) -> Seq<char> {
    if c == '"' {
        "\\\""@
    } else if c == '\\' {
        "\\\\"@
    } else if c == '\n' {
        "\\n"@
    } else if 32 > c as int {
        "\\u00"@ + text::hex(seq![c as u8])
    } else {
        seq![c]
    }
}

/// What some text is written as inside a JSON string.
pub open spec fn escaped(value: Seq<char>) -> Seq<char>
    decreases value.len(),
{
    if value.len() == 0 {
        Seq::empty()
    } else {
        escaped(value.drop_last()) + escape(value.last())
    }
}

/// Some text as a JSON string.
pub open spec fn quoted(value: Seq<char>) -> Seq<char> {
    "\""@ + escaped(value) + "\""@
}

/// A truth value as JSON.
pub open spec fn boolean(value: bool) -> Seq<char> {
    if value {
        "true"@
    } else {
        "false"@
    }
}

/// A list of labels as JSON.
pub open spec fn labels(ids: Seq<u8>) -> Seq<char> {
    "["@ + text::joined(ids.map_values(|id: u8| text::decimal(id as nat)), ","@) + "]"@
}

/// Writes some text onto the end of `out` as a JSON string.
pub fn push_quoted(out: &mut String, value: &str)
    ensures
        final(out)@ == old(out)@ + quoted(value@),
{
    let ghost before = out@;
    out.append("\"");
    let chars = chars_of(value);
    let mut i: usize = 0;
    assert(value@.take(0) =~= Seq::empty());
    assert(out@ =~= before + "\""@ + escaped(value@.take(0)));
    while i < chars.len()
        invariant
            chars@ == value@,
            0 <= i <= chars@.len(),
            out@ == before + "\""@ + escaped(value@.take(i as int)),
        decreases chars@.len() - i,
    {
        let c = chars[i];
        let ghost taken = value@.take(i + 1);
        assert(taken.drop_last() =~= value@.take(i as int));
        assert(taken.last() == c);
        if c == '"' {
            out.append("\\\"");
        } else if c == '\\' {
            out.append("\\\\");
        } else if c == '\n' {
            out.append("\\n");
        } else if '\u{20}' > c {
            let byte: [u8; 1] = [c as u8];
            out.append("\\u00");
            push_hex(out, &byte);
            assert(byte@ =~= seq![c as u8]);
        } else {
            out.push(c);
        }
        assert(out@ =~= before + "\""@ + escaped(taken));
        i += 1;
    }
    assert(value@.take(i as int) =~= value@);
    out.append("\"");
    assert(out@ =~= before + quoted(value@));
}

/// Quotes a string for JSON. Log lines are our own text, but escaping is cheap.
pub fn json_string(value: &str) -> (json: String)
    ensures
        json@ == quoted(value@),
{
    let mut json = String::new();
    push_quoted(&mut json, value);
    assert(json@ =~= quoted(value@));
    json
}

/// Writes a truth value onto the end of `out`.
pub fn push_boolean(out: &mut String, value: bool)
    ensures
        final(out)@ == old(out)@ + boolean(value),
{
    if value {
        out.append("true");
    } else {
        out.append("false");
    }
}

/// Writes labels onto the end of `out`, with `between` between each two.
pub fn push_labels(out: &mut String, ids: &Vec<u8>, between: &str)
    ensures
        final(out)@ == old(out)@ + text::joined(
            ids@.map_values(|id: u8| text::decimal(id as nat)),
            between@,
        ),
{
    let ghost before = out@;
    let ghost write = |id: u8| text::decimal(id as nat);
    let ghost pieces = ids@.map_values(write);
    let mut i: usize = 0;
    assert(out@ =~= before + text::joined(pieces.take(0), between@));
    while i < ids.len()
        invariant
            write == (|id: u8| text::decimal(id as nat)),
            pieces == ids@.map_values(write),
            0 <= i <= ids@.len(),
            out@ == before + text::joined(pieces.take(i as int), between@),
        decreases ids@.len() - i,
    {
        if i > 0 {
            out.append(between);
        }
        push_decimal(out, ids[i] as u64);
        proof {
            text::lemma_join_one_more(pieces, i as int, between@);
            assert(out@ =~= before + text::joined(pieces.take(i + 1), between@));
        }
        i += 1;
    }
    assert(pieces.take(i as int) =~= pieces);
}

/// Writes a list of labels onto the end of `out`.
pub fn push_ids(out: &mut String, ids: &Vec<u8>)
    ensures
        final(out)@ == old(out)@ + labels(ids@),
{
    let ghost before = out@;
    out.append("[");
    push_labels(out, ids, ",");
    out.append("]");
    assert(out@ =~= before + labels(ids@));
}

} // verus!
