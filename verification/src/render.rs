//! The canonical text of a value.

use crate::binary_util::binary_text;
use crate::value::{entry_models, models, DValue, Datum};
use vstd::prelude::*;
use vstd::string::*;

verus! {

/// The canonical text of a value. Texts are written between double quotes as
/// they are, with nothing escaped; the members of a tuple are parted by a
/// comma and a space, the items of a list and the entries of a dictionary by
/// a comma alone.
pub open spec fn render(v: Datum) -> Seq<char>
    decreases v, 0nat,
{
    match v {
        Datum::Null => "none"@,
        Datum::String(text) => "\""@ + text + "\""@,
        Datum::Number(text) => text,
        Datum::Boolean(truth) => if truth {
            "true"@
        } else {
            "false"@
        },
        Datum::List(items) => "["@ + render_items(items) + "]"@,
        Datum::Dict(entries) => "{"@ + render_entries(entries) + "}"@,
        Datum::Tuple(first, second) => "("@ + render(*first) + ", "@ + render(*second) + ")"@,
        Datum::Binary(data) => binary_text(data),
    }
}

/// The canonical texts of `items`, parted by commas.
pub open spec fn render_items(items: Seq<Datum>) -> Seq<char>
    decreases items, 0nat,
{
    if items.len() == 0 {
        Seq::empty()
    } else if items.len() == 1 {
        render(items[0])
    } else {
        render_items(items.drop_last()) + ","@ + render(items.last())
    }
}

/// The text of one entry: the key between double quotes, a colon, the value.
pub open spec fn render_entry(key: Seq<char>, v: Datum) -> Seq<char>
    decreases v, 1nat,
{
    "\""@ + key + "\":"@ + render(v)
}

/// The texts of `entries`, parted by commas.
pub open spec fn render_entries(entries: Seq<(Seq<char>, Datum)>) -> Seq<char>
    decreases entries, 0nat,
{
    if entries.len() == 0 {
        Seq::empty()
    } else if entries.len() == 1 {
        render_entry(entries[0].0, entries[0].1)
    } else {
        render_entries(entries.drop_last()) + ","@ + render_entry(
            entries.last().0,
            entries.last().1,
        )
    }
}

/// The canonical texts of `items`, parted by commas.
pub fn items_to_string(items: &Vec<DValue>) -> (r: String)
    ensures
        r@ == render_items(models(items@)),
    decreases items,
{
    let ghost all = models(items@);
    let mut out = String::new();
    let mut i: usize = 0;
    while i < items.len()
        invariant
            i <= items.len(),
            all == models(items@),
            out@ == render_items(all.take(i as int)),
        decreases items.len() - i,
    {
        let ghost before = out@;
        if i > 0 {
            out.append(",");
        }
        let piece = items[i].to_string();
        out.append(piece.as_str());
        proof {
            let now = all.take(i + 1);
            assert(now.drop_last() =~= all.take(i as int));
            assert(now.last() == all[i as int]);
            if i == 0 {
                assert(out@ =~= render(now[0]));
            } else {
                assert(out@ =~= before + ","@ + render(now.last()));
            }
        }
        i += 1;
    }
    assert(all.take(i as int) =~= all);
    out
}

/// The texts of `entries`, parted by commas.
pub fn entries_to_string(entries: &Vec<(String, DValue)>) -> (r: String)
    ensures
        r@ == render_entries(entry_models(entries@)),
    decreases entries,
{
    let ghost all = entry_models(entries@);
    let mut out = String::new();
    let mut i: usize = 0;
    while i < entries.len()
        invariant
            i <= entries.len(),
            all == entry_models(entries@),
            out@ == render_entries(all.take(i as int)),
        decreases entries.len() - i,
    {
        let ghost before = out@;
        if i > 0 {
            out.append(",");
        }
        let entry = &entries[i];
        let piece = entry.1.to_string();
        out.append("\"");
        out.append(entry.0.as_str());
        out.append("\":");
        out.append(piece.as_str());
        proof {
            let now = all.take(i + 1);
            assert(now.drop_last() =~= all.take(i as int));
            assert(now.last() == all[i as int]);
            let text = render_entry(now.last().0, now.last().1);
            if i == 0 {
                assert(out@ =~= text);
            } else {
                assert(out@ =~= before + ","@ + text);
            }
        }
        i += 1;
    }
    assert(all.take(i as int) =~= all);
    out
}

impl DValue {
    /// The canonical text of the value.
    pub fn to_string(&self) -> (r: String)
        ensures
            r@ == render(self@),
        decreases self,
    {
        match self {
            DValue::Null => String::from_str("none"),
            DValue::String(text) => {
                let mut out = String::from_str("\"");
                out.append(text.as_str());
                out.append("\"");
                out
            },
            DValue::Number(number) => number.text(),
            DValue::Boolean(truth) => if *truth {
                String::from_str("true")
            } else {
                String::from_str("false")
            },
            DValue::List(items) => {
                let mut out = String::from_str("[");
                let body = items_to_string(items);
                out.append(body.as_str());
                out.append("]");
                out
            },
            DValue::Dict(entries) => {
                let mut out = String::from_str("{");
                let body = entries_to_string(entries);
                out.append(body.as_str());
                out.append("}");
                out
            },
            DValue::Tuple(pair) => {
                let mut out = String::from_str("(");
                let first = pair.0.to_string();
                out.append(first.as_str());
                out.append(", ");
                let second = pair.1.to_string();
                out.append(second.as_str());
                out.append(")");
                out
            },
            DValue::BinaryUtil(payload) => payload.to_string(),
        }
    }
}

} // verus!
