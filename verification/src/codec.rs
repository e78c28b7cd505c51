//! Rendering of entries as response text: decimal numerals, escaping of
//! text fields, and the serialized object form of a single entry.

use vstd::prelude::*;
use vstd::string::StrSliceExecFns;
use vstd::string::StringExecFns;
use crate::models::{Entry, EntryModel};

verus! {

/// The decimal digit character of a value below ten.
pub open spec fn digit_char(d: int) -> char {
    if d == 0 {
        '0'
    } else if d == 1 {
        '1'
    } else if d == 2 {
        '2'
    } else if d == 3 {
        '3'
    } else if d == 4 {
        '4'
    } else if d == 5 {
        '5'
    } else if d == 6 {
        '6'
    } else if d == 7 {
        '7'
    } else if d == 8 {
        '8'
    } else {
        '9'
    }
}

/// Decimal rendering of a natural number, most significant digit first,
/// without leading zeros (zero itself rendered as one digit).
pub open spec fn dec_seq(n: nat) -> Seq<char>
    decreases n,
{
    if n < 10 {
        seq![digit_char(n as int)]
    } else {
        dec_seq(n / 10).push(digit_char((n % 10) as int))
    }
}

/// Renders a value in decimal.
pub fn u64_to_dec(n: u64) -> (r: String)
    ensures
        r@ == dec_seq(n as nat),
    decreases n,
{
    let digits = "0123456789";
    proof {
        reveal_strlit("0123456789");
        assert(digits@ =~= seq!['0', '1', '2', '3', '4', '5', '6', '7', '8', '9']);
    }
    if n < 10 {
        let d = digits.substring_char(n as usize, n as usize + 1);
        proof {
            assert(d@ =~= dec_seq(n as nat));
        }
        String::from_str(d)
    } else {
        let mut r = u64_to_dec(n / 10);
        let m = (n % 10) as usize;
        let d = digits.substring_char(m, m + 1);
        r.append(d);
        proof {
            assert(r@ =~= dec_seq(n as nat));
        }
        r
    }
}

/// The lowercase hexadecimal digit character of a value below sixteen.
pub open spec fn hex_char(d: int) -> char {
    if d < 10 {
        digit_char(d)
    } else if d == 10 {
        'a'
    } else if d == 11 {
        'b'
    } else if d == 12 {
        'c'
    } else if d == 13 {
        'd'
    } else if d == 14 {
        'e'
    } else {
        'f'
    }
}

/// How one character stands inside a double-quoted text field: quote and
/// backslash escaped, control characters in `\u00XX` form, all else itself.
pub open spec fn escape_char(c: char) -> Seq<char> {
    if c == '"' {
        seq!['\\', '"']
    } else if c == '\\' {
        seq!['\\', '\\']
    } else if (c as int) < 0x20 {
        seq!['\\', 'u', '0', '0', hex_char(c as int / 16), hex_char(c as int % 16)]
    } else {
        seq![c]
    }
}

/// Escaped form of a whole text, character by character.
pub open spec fn escape_seq(s: Seq<char>) -> Seq<char>
    decreases s.len(),
{
    if s.len() == 0 {
        Seq::empty()
    } else {
        escape_seq(s.drop_last()) + escape_char(s.last())
    }
}

/// Escapes a text for use inside a double-quoted field.
pub fn escape_text(s: &str) -> (r: String)
    ensures
        r@ == escape_seq(s@),
{
    let len = s.unicode_len();
    let mut out = String::new();
    let mut i: usize = 0;
    while i < len
        invariant
            len == s@.len(),
            i <= len,
            out@ == escape_seq(s@.take(i as int)),
        decreases len - i,
    {
        let c = s.get_char(i);
        if c == '"' {
            proof {
                reveal_strlit("\\\"");
            }
            out.append("\\\"");
            proof {
                assert("\\\""@ =~= escape_char(c));
            }
        } else if c == '\\' {
            proof {
                reveal_strlit("\\\\");
            }
            out.append("\\\\");
            proof {
                assert("\\\\"@ =~= escape_char(c));
            }
        } else if (c as u32) < 0x20 {
            let hexd = "0123456789abcdef";
            proof {
                reveal_strlit("\\u00");
                reveal_strlit("0123456789abcdef");
                assert(hexd@ =~= seq![
                    '0', '1', '2', '3', '4', '5', '6', '7', '8', '9', 'a', 'b', 'c', 'd', 'e', 'f',
                ]);
            }
            let hi = ((c as u32) / 16) as usize;
            let lo = ((c as u32) % 16) as usize;
            out.append("\\u00");
            out.append(hexd.substring_char(hi, hi + 1));
            out.append(hexd.substring_char(lo, lo + 1));
            proof {
                assert("\\u00"@ + hexd@.subrange(hi as int, hi as int + 1) + hexd@.subrange(
                    lo as int,
                    lo as int + 1,
                ) =~= escape_char(c));
            }
        } else {
            out.append(s.substring_char(i, i + 1));
            proof {
                assert(s@.subrange(i as int, i as int + 1) =~= escape_char(c));
            }
        }
        proof {
            assert(s@.take(i + 1).drop_last() =~= s@.take(i as int));
            assert(s@.take(i + 1).last() == c);
            assert(out@ == escape_seq(s@.take(i + 1)));
        }
        i = i + 1;
    }
    proof {
        assert(s@.take(len as int) =~= s@);
    }
    out
}

/// The serialized form of the optional payload field.
pub open spec fn opt_field(o: Option<Seq<char>>) -> Seq<char> {
    match o {
        Some(p) => seq!['"'] + escape_seq(p) + seq!['"'],
        None => "null"@,
    }
}

/// The serialized form of one entry: a single structured object, fields in
/// declaration order.
pub open spec fn json_of(e: EntryModel) -> Seq<char> {
    "{\"id\":"@ + dec_seq(e.id as nat) + ",\"opt\":"@ + opt_field(e.opt) + ",\"num\":"@ + dec_seq(
        e.num as nat,
    ) + ",\"hash\":\""@ + escape_seq(e.hash) + "\"}"@
}

/// Serialized forms of a run of entries, concatenated in order.
pub open spec fn json_concat(es: Seq<EntryModel>) -> Seq<char>
    decreases es.len(),
{
    if es.len() == 0 {
        Seq::empty()
    } else {
        json_concat(es.drop_last()) + json_of(es.last())
    }
}

/// Serializes one entry.
pub fn serialize_entry(e: &Entry) -> (r: String)
    requires
        e.id >= 0,
    ensures
        r@ == json_of(e@),
{
    let mut r = String::from_str("{\"id\":");
    let id_dec = u64_to_dec(e.id as u64);
    r.append(id_dec.as_str());
    r.append(",\"opt\":");
    match &e.opt {
        Some(p) => {
            proof {
                reveal_strlit("\"");
            }
            r.append("\"");
            let esc = escape_text(p.as_str());
            r.append(esc.as_str());
            r.append("\"");
            proof {
                assert("\""@ + escape_seq(p@) + "\""@ =~= opt_field(e@.opt));
            }
        },
        None => {
            r.append("null");
        },
    }
    r.append(",\"num\":");
    let num_dec = u64_to_dec(e.num);
    r.append(num_dec.as_str());
    r.append(",\"hash\":\"");
    let esc_hash = escape_text(e.hash.as_str());
    r.append(esc_hash.as_str());
    r.append("\"}");
    proof {
        assert(r@ =~= json_of(e@));
    }
    r
}

/// The body a range query answers with for an already-selected page of
/// rows: their serialized forms concatenated in order, or the sentinel
/// `Error!` when the page is empty.
pub fn page_response(rows: &Vec<Entry>) -> (r: String)
    requires
        forall|k: int| 0 <= k < rows@.len() ==> (#[trigger] rows@[k]).id >= 0,
    ensures
        r@ == if rows@.len() == 0 {
            "Error!"@
        } else {
            json_concat(rows@.map_values(|e: Entry| e@))
        },
{
    let ghost m = rows@.map_values(|e: Entry| e@);
    let n = rows.len();
    if n == 0 {
        return String::from_str("Error!");
    }
    let mut text = String::new();
    let mut i: usize = 0;
    while i < n
        invariant
            n == rows@.len(),
            i <= n,
            m == rows@.map_values(|e: Entry| e@),
            forall|k: int| 0 <= k < rows@.len() ==> (#[trigger] rows@[k]).id >= 0,
            text@ == json_concat(m.take(i as int)),
        decreases n - i,
    {
        let ser = serialize_entry(&rows[i]);
        text.append(ser.as_str());
        proof {
            assert(m.take(i + 1).drop_last() =~= m.take(i as int));
            assert(m.take(i + 1).last() == m[i as int]);
            assert(m[i as int] == rows@[i as int]@);
            assert(text@ == json_concat(m.take(i + 1)));
        }
        i = i + 1;
    }
    proof {
        assert(m.take(n as int) =~= m);
    }
    text
}

/// The body a single-row fetch answers with: the row's serialized form, or
/// the sentinel `Error` when no row was found.
pub fn entry_response(row: &Option<Entry>) -> (r: String)
    requires
        row is Some ==> row->0.id >= 0,
    ensures
        r@ == match row {
            Some(e) => json_of(e@),
            None => "Error"@,
        },
{
    match row {
        Some(e) => serialize_entry(e),
        None => String::from_str("Error"),
    }
}

/// A serialized entry is never empty and always opens with a brace, so it
/// can never coincide with a sentinel word.
pub proof fn lemma_json_of_head(e: EntryModel)
    ensures
        json_of(e).len() > 0,
        json_of(e)[0] == '{',
{
    reveal_strlit("{\"id\":");
}

/// A concatenation of one or more serialized entries is never empty and
/// opens with a brace.
pub proof fn lemma_json_concat_head(es: Seq<EntryModel>)
    requires
        es.len() > 0,
    ensures
        json_concat(es).len() > 0,
        json_concat(es)[0] == '{',
    decreases es.len(),
{
    reveal_with_fuel(json_concat, 2);
    if es.len() == 1 {
        lemma_json_of_head(es.last());
        assert(json_concat(es) =~= json_of(es.last()));
    } else {
        lemma_json_concat_head(es.drop_last());
    }
}

} // verus!
