//! The value model.

use crate::binary_util::Binary;
use crate::number::Number;
use vstd::prelude::*;
use vstd::string::*;
use vstd::utf8::*;

verus! {

/// A value of any of the shapes that the notation can write.
#[derive(Debug)]
pub enum DValue {
    /// The absent value.
    Null,
    /// A text.
    String(String),
    /// A number.
    Number(Number),
    /// A truth value.
    Boolean(bool),
    /// A sequence of values.
    List(Vec<DValue>),
    /// Values under keys, in the order in which the keys first came.
    Dict(Vec<(String, DValue)>),
    /// Two values.
    Tuple((Box<DValue>, Box<DValue>)),
    /// A byte payload.
    BinaryUtil(Binary),
}

/// What a [`DValue`] is, as a mathematical value.
pub enum Datum {
    Null,
    String(Seq<char>),
    Number(Seq<char>),
    Boolean(bool),
    List(Seq<Datum>),
    Dict(Seq<(Seq<char>, Datum)>),
    Tuple(Box<Datum>, Box<Datum>),
    Binary(Seq<u8>),
}

/// The values that the items of a list hold, in order.
pub open spec fn models(items: Seq<DValue>) -> Seq<Datum>
    decreases items,
{
    Seq::new(
        items.len(),
        |i: int|
            if 0 <= i < items.len() {
                items[i].model()
            } else {
                Datum::Null
            },
    )
}

/// The keys and values that the entries of a dictionary hold, in order.
pub open spec fn entry_models(entries: Seq<(String, DValue)>) -> Seq<(Seq<char>, Datum)>
    decreases entries,
{
    Seq::new(
        entries.len(),
        |i: int|
            if 0 <= i < entries.len() {
                (entries[i].0@, entries[i].1.model())
            } else {
                (Seq::empty(), Datum::Null)
            },
    )
}

impl DValue {
    /// The mathematical value that `self` holds.
    pub open spec fn model(&self) -> Datum
        decreases self,
    {
        match self {
            DValue::Null => Datum::Null,
            DValue::String(text) => Datum::String(text@),
            DValue::Number(number) => Datum::Number(number@),
            DValue::Boolean(truth) => Datum::Boolean(*truth),
            DValue::List(items) => Datum::List(models(items@)),
            DValue::Dict(entries) => Datum::Dict(entry_models(entries@)),
            DValue::Tuple(pair) => Datum::Tuple(Box::new(pair.0.model()), Box::new(pair.1.model())),
            DValue::BinaryUtil(payload) => Datum::Binary(payload@),
        }
    }
}

impl View for DValue {
    type V = Datum;

    open spec fn view(&self) -> Datum {
        self.model()
    }
}


/// The name of the shape of a value.
pub open spec fn kind_name(v: Datum) -> Seq<char> {
    match v {
        Datum::Null => "None"@,
        Datum::String(_) => "String"@,
        Datum::Number(_) => "Number"@,
        Datum::Boolean(_) => "Boolean"@,
        Datum::List(_) => "List"@,
        Datum::Dict(_) => "Dict"@,
        Datum::Tuple(_, _) => "Tuple"@,
        Datum::Binary(_) => "Binary"@,
    }
}

/// The size estimate of a value in bytes: a text counts the bytes of its
/// UTF-8 form, a number 8, a truth value 1, a payload its bytes, and a list,
/// dictionary or tuple the sizes of the values in it. Keys count nothing.
pub open spec fn size_of(v: Datum) -> nat
    decreases v,
{
    match v {
        Datum::Null => 0,
        Datum::String(text) => encode_utf8(text).len(),
        Datum::Number(_) => 8,
        Datum::Boolean(_) => 1,
        Datum::List(items) => sizes_of(items),
        Datum::Dict(entries) => entry_sizes_of(entries),
        Datum::Tuple(first, second) => size_of(*first) + size_of(*second),
        Datum::Binary(data) => data.len(),
    }
}

/// The sum of the sizes of `items`.
pub open spec fn sizes_of(items: Seq<Datum>) -> nat
    decreases items,
{
    if items.len() == 0 {
        0
    } else {
        sizes_of(items.drop_last()) + size_of(items.last())
    }
}

/// The sum of the sizes of the values of `entries`.
pub open spec fn entry_sizes_of(entries: Seq<(Seq<char>, Datum)>) -> nat
    decreases entries,
{
    if entries.len() == 0 {
        0
    } else {
        entry_sizes_of(entries.drop_last()) + size_of(entries.last().1)
    }
}

/// The sizes of the first `k` items sum to no more than those of all items.
proof fn lemma_sizes_of_prefix(items: Seq<Datum>, k: int)
    requires
        0 <= k <= items.len(),
    ensures
        sizes_of(items.take(k)) <= sizes_of(items),
    decreases items.len(),
{
    if k == items.len() {
        assert(items.take(k) =~= items);
    } else {
        lemma_sizes_of_prefix(items.drop_last(), k);
        assert(items.drop_last().take(k) =~= items.take(k));
    }
}

/// The sizes of the first `k` entries sum to no more than those of all entries.
proof fn lemma_entry_sizes_of_prefix(entries: Seq<(Seq<char>, Datum)>, k: int)
    requires
        0 <= k <= entries.len(),
    ensures
        entry_sizes_of(entries.take(k)) <= entry_sizes_of(entries),
    decreases entries.len(),
{
    if k == entries.len() {
        assert(entries.take(k) =~= entries);
    } else {
        lemma_entry_sizes_of_prefix(entries.drop_last(), k);
        assert(entries.drop_last().take(k) =~= entries.take(k));
    }
}

/// A copy of `items`.
pub fn duplicate_items(items: &Vec<DValue>) -> (r: Vec<DValue>)
    ensures
        models(r@) == models(items@),
    decreases items,
{
    let mut out: Vec<DValue> = Vec::new();
    let mut i: usize = 0;
    while i < items.len()
        invariant
            i <= items.len(),
            out@.len() == i,
            forall|k: int| 0 <= k < i ==> (#[trigger] out@[k]).model() == items@[k].model(),
        decreases items.len() - i,
    {
        out.push(items[i].duplicate());
        i += 1;
    }
    assert(models(out@) =~= models(items@));
    out
}

/// A copy of `entries`.
pub fn duplicate_entries(entries: &Vec<(String, DValue)>) -> (r: Vec<(String, DValue)>)
    ensures
        entry_models(r@) == entry_models(entries@),
    decreases entries,
{
    let mut out: Vec<(String, DValue)> = Vec::new();
    let mut i: usize = 0;
    while i < entries.len()
        invariant
            i <= entries.len(),
            out@.len() == i,
            forall|k: int|
                0 <= k < i ==> (#[trigger] out@[k]).0@ == entries@[k].0@ && out@[k].1.model()
                    == entries@[k].1.model(),
        decreases entries.len() - i,
    {
        let entry = &entries[i];
        out.push((entry.0.clone(), entry.1.duplicate()));
        i += 1;
    }
    assert(entry_models(out@) =~= entry_models(entries@));
    out
}

/// The sum of the sizes of `items`.
pub fn size_items(items: &Vec<DValue>) -> (n: usize)
    requires
        sizes_of(models(items@)) <= usize::MAX,
    ensures
        n == sizes_of(models(items@)),
    decreases items,
{
    let ghost all = models(items@);
    let mut total: usize = 0;
    let mut i: usize = 0;
    while i < items.len()
        invariant
            i <= items.len(),
            all == models(items@),
            sizes_of(all) <= usize::MAX,
            total == sizes_of(all.take(i as int)),
        decreases items.len() - i,
    {
        proof {
            lemma_sizes_of_prefix(all, i + 1);
            assert(all.take(i + 1).drop_last() =~= all.take(i as int));
        }
        let part = items[i].size();
        total = total + part;
        i += 1;
    }
    assert(all.take(i as int) =~= all);
    total
}

/// The sum of the sizes of the values of `entries`.
pub fn size_entries(entries: &Vec<(String, DValue)>) -> (n: usize)
    requires
        entry_sizes_of(entry_models(entries@)) <= usize::MAX,
    ensures
        n == entry_sizes_of(entry_models(entries@)),
    decreases entries,
{
    let ghost all = entry_models(entries@);
    let mut total: usize = 0;
    let mut i: usize = 0;
    while i < entries.len()
        invariant
            i <= entries.len(),
            all == entry_models(entries@),
            entry_sizes_of(all) <= usize::MAX,
            total == entry_sizes_of(all.take(i as int)),
        decreases entries.len() - i,
    {
        proof {
            lemma_entry_sizes_of_prefix(all, i + 1);
            assert(all.take(i + 1).drop_last() =~= all.take(i as int));
        }
        let part = entries[i].1.size();
        total = total + part;
        i += 1;
    }
    assert(all.take(i as int) =~= all);
    total
}

impl DValue {
    /// A copy of the value.
    pub fn duplicate(&self) -> (r: DValue)
        ensures
            r@ == self@,
        decreases self,
    {
        match self {
            DValue::Null => DValue::Null,
            DValue::String(text) => DValue::String(text.clone()),
            DValue::Number(number) => DValue::Number(number.clone()),
            DValue::Boolean(truth) => DValue::Boolean(*truth),
            DValue::List(items) => DValue::List(duplicate_items(items)),
            DValue::Dict(entries) => DValue::Dict(duplicate_entries(entries)),
            DValue::Tuple(pair) => DValue::Tuple(
                (Box::new(pair.0.duplicate()), Box::new(pair.1.duplicate())),
            ),
            DValue::BinaryUtil(payload) => DValue::BinaryUtil(payload.clone()),
        }
    }

    /// The size estimate of the value in bytes.
    pub fn size(&self) -> (n: usize)
        requires
            size_of(self@) <= usize::MAX,
        ensures
            n == size_of(self@),
        decreases self,
    {
        match self {
            DValue::Null => 0,
            DValue::String(text) => text.as_str().len(),
            DValue::Number(_) => 8,
            DValue::Boolean(_) => 1,
            DValue::List(items) => size_items(items),
            DValue::Dict(entries) => size_entries(entries),
            DValue::Tuple(pair) => pair.0.size() + pair.1.size(),
            DValue::BinaryUtil(payload) => payload.size(),
        }
    }

    /// The name of the shape of the value.
    pub fn datatype(&self) -> (r: String)
        ensures
            r@ == kind_name(self@),
    {
        let name = match self {
            DValue::Null => "None",
            DValue::String(_) => "String",
            DValue::Number(_) => "Number",
            DValue::Boolean(_) => "Boolean",
            DValue::List(_) => "List",
            DValue::Dict(_) => "Dict",
            DValue::Tuple(_) => "Tuple",
            DValue::BinaryUtil(_) => "Binary",
        };
        String::from_str(name)
    }

    /// The text, where the value is one.
    pub fn as_string(&self) -> (r: Option<String>)
        ensures
            match self@ {
                Datum::String(text) => r matches Some(s) && s@ == text,
                _ => r is None,
            },
    {
        match self {
            DValue::String(text) => Some(text.clone()),
            _ => None,
        }
    }

    /// The number, where the value is one.
    pub fn as_number(&self) -> (r: Option<Number>)
        ensures
            match self@ {
                Datum::Number(text) => r matches Some(n) && n@ == text,
                _ => r is None,
            },
    {
        match self {
            DValue::Number(number) => Some(number.clone()),
            _ => None,
        }
    }

    /// The truth value, where the value is one.
    pub fn as_bool(&self) -> (r: Option<bool>)
        ensures
            match self@ {
                Datum::Boolean(truth) => r == Some(truth),
                _ => r is None,
            },
    {
        match self {
            DValue::Boolean(truth) => Some(*truth),
            _ => None,
        }
    }

    /// The two members, where the value is a tuple.
    pub fn as_tuple(&self) -> (r: Option<(Box<DValue>, Box<DValue>)>)
        ensures
            match self@ {
                Datum::Tuple(first, second) => r matches Some(pair) && pair.0@ == *first && pair.1@
                    == *second,
                _ => r is None,
            },
    {
        match self {
            DValue::Tuple(pair) => Some((Box::new(pair.0.duplicate()), Box::new(pair.1.duplicate()))),
            _ => None,
        }
    }

    /// The items, where the value is a list.
    pub fn as_list(&self) -> (r: Option<Vec<DValue>>)
        ensures
            match self@ {
                Datum::List(items) => r matches Some(list) && models(list@) == items,
                _ => r is None,
            },
    {
        match self {
            DValue::List(items) => Some(duplicate_items(items)),
            _ => None,
        }
    }

    /// The entries, where the value is a dictionary.
    pub fn as_dict(&self) -> (r: Option<Vec<(String, DValue)>>)
        ensures
            match self@ {
                Datum::Dict(entries) => r matches Some(dict) && entry_models(dict@) == entries,
                _ => r is None,
            },
    {
        match self {
            DValue::Dict(entries) => Some(duplicate_entries(entries)),
            _ => None,
        }
    }
}

impl Clone for DValue {
    fn clone(&self) -> (r: Self)
        ensures
            r@ == self@,
    {
        self.duplicate()
    }
}

} // verus!
