//! A readable rendering of bencode values, for logs and display.
use vstd::prelude::*;
use vstd::string::StringExecFns;

use crate::bencode::{dict_order, entries_at, lemma_list_view_index, list_view, value_view, BencodeValue, Bv, dict_view};
use crate::torrent::{lossy_of, lossy_string};

verus! {

/// A text in the form `{:?}` gives it: quoted, with escapes.
pub uninterp spec fn debug_of(s: Seq<char>) -> Seq<char>;

/// Relies on the `Debug` format of `String`: the result depends on the
/// text alone.
#[verifier::external_body]
fn debug_text(s: &String) -> (r: String)
    ensures
        r@ == debug_of(s@),
{
    format!("{:?}", s)
}

pub open spec fn digit_char(d: int) -> char {
    ((48 + d) as u8) as char
}

/// Decimal digits of `n` as text.
pub open spec fn dec_chars(n: nat) -> Seq<char>
    decreases n,
{
    if n < 10 {
        seq![digit_char(n as int)]
    } else {
        dec_chars(n / 10).push(digit_char((n % 10) as int))
    }
}

/// The rendering of a value; list items are separated by `sep`,
/// dictionary entries by `,`.
pub open spec fn show(v: Bv, sep: Seq<char>) -> Seq<char>
    decreases v,
{
    match v {
        Bv::Bytes(b) => debug_of(lossy_of(b)),
        Bv::Num(n) => if n < 0 {
            "-"@ + dec_chars((-n) as nat)
        } else {
            dec_chars(n as nat)
        },
        Bv::Null => "Null"@,
        Bv::List(l) => "["@ + show_items(l, sep) + "]"@,
        Bv::Dict(m) => "{"@ + show_entries(m, sep) + "}"@,
    }
}

pub open spec fn show_items(l: Seq<Bv>, sep: Seq<char>) -> Seq<char>
    decreases l,
{
    if l.len() == 0 {
        seq![]
    } else if l.len() == 1 {
        show(l[0], sep)
    } else {
        show_items(l.drop_last(), sep) + sep + show(l.last(), sep)
    }
}

/// Each entry as `"key":value`, joined by `,`.
pub open spec fn show_entries(m: Seq<(Seq<u8>, Bv)>, sep: Seq<char>) -> Seq<char>
    decreases m,
{
    if m.len() == 0 {
        seq![]
    } else if m.len() == 1 {
        "\""@ + lossy_of(m[0].0) + "\":"@ + show(m[0].1, sep)
    } else {
        show_entries(m.drop_last(), sep) + ","@ + "\""@ + lossy_of(m.last().0) + "\":"@ + show(m.last().1, sep)
    }
}

pub(crate) fn digit_str(d: u64) -> (r: &'static str)
    requires
        d < 10,
    ensures
        r@ == seq![digit_char(d as int)],
{
    proof {
        reveal_strlit("0");
        reveal_strlit("1");
        reveal_strlit("2");
        reveal_strlit("3");
        reveal_strlit("4");
        reveal_strlit("5");
        reveal_strlit("6");
        reveal_strlit("7");
        reveal_strlit("8");
        reveal_strlit("9");
    }
    if d == 0 {
        "0"
    } else if d == 1 {
        "1"
    } else if d == 2 {
        "2"
    } else if d == 3 {
        "3"
    } else if d == 4 {
        "4"
    } else if d == 5 {
        "5"
    } else if d == 6 {
        "6"
    } else if d == 7 {
        "7"
    } else if d == 8 {
        "8"
    } else {
        "9"
    }
}

pub(crate) fn append_dec(buf: &mut String, n: u64)
    ensures
        final(buf)@ == old(buf)@ + dec_chars(n as nat),
    decreases n,
{
    if n < 10 {
        buf.append(digit_str(n));
    } else {
        append_dec(buf, n / 10);
        buf.append(digit_str(n % 10));
        assert(buf@ =~= old(buf)@ + dec_chars(n as nat));
    }
}

impl BencodeValue {
    /// The rendering of the value, list items separated by `arr_sep`.
    pub fn to_string_with_sep(&self, arr_sep: &str) -> (r: String)
        ensures
            r@ == show(self@, arr_sep@),
        decreases self,
    {
        let mut buf = String::new();
        match self {
            BencodeValue::Bytes(b) => {
                let text = lossy_string(b.as_slice());
                return debug_text(&text);
            },
            BencodeValue::Num(n) => {
                if *n < 0 {
                    buf.append("-");
                    append_dec(&mut buf, (-(*n as i128)) as u64);
                } else {
                    append_dec(&mut buf, *n as u64);
                }
                assert(buf@ =~= show(self@, arr_sep@));
            },
            BencodeValue::Null => {
                buf.append("Null");
                assert(buf@ =~= show(self@, arr_sep@));
            },
            BencodeValue::List(l) => {
                buf.append("[");
                let ghost start = buf@;
                let mut i: usize = 0;
                assert(list_view(l@.subrange(0, 0)) =~= seq![]);
                while i < l.len()
                    invariant
                        i <= l.len(),
                        *self == BencodeValue::List(*l),
                        buf@ == start + show_items(list_view(l@.subrange(0, i as int)), arr_sep@),
                    decreases l.len() - i,
                {
                    proof {
                        assert(decreases_to!(*l => l[i as int]));
                        assert(decreases_to!(*self => self->List_0));
                        assert(decreases_to!(*self => l[i as int]));
                    }
                    let item = l[i].to_string_with_sep(arr_sep);
                    proof {
                        let a = l@.subrange(0, i as int);
                        let b = l@.subrange(0, i + 1);
                        assert(b.drop_last() =~= a);
                        let lv = list_view(a);
                        assert(list_view(b) == lv.push(value_view(l@[i as int])));
                        assert(lv.push(value_view(l@[i as int])).drop_last() =~= lv);
                        lemma_list_view_index(a);
                    }
                    if i > 0 {
                        buf.append(arr_sep);
                    }
                    buf.append(item.as_str());
                    proof {
                        let a = l@.subrange(0, i as int);
                        let lv = list_view(a);
                        if i == 0 {
                            assert(lv.push(value_view(l@[i as int])) =~= seq![value_view(l@[i as int])]);
                        }
                    }
                    i += 1;
                    assert(buf@ =~= start + show_items(list_view(l@.subrange(0, i as int)), arr_sep@));
                }
                buf.append("]");
                assert(l@.subrange(0, l.len() as int) =~= l@);
                assert(buf@ =~= show(self@, arr_sep@));
            },
            BencodeValue::Dict(d) => {
                buf.append("{");
                let ghost start = buf@;
                let order = dict_order(d);
                let mut k: usize = 0;
                assert(entries_at(d@, order@.subrange(0, 0)) =~= seq![]);
                while k < order.len()
                    invariant
                        k <= order.len(),
                        *self == BencodeValue::Dict(*d),
                        forall|q: int| 0 <= q < order.len() ==> order[q] < d.len(),
                        entries_at(d@, order@) == dict_view(d@),
                        buf@ == start + show_entries(entries_at(d@, order@.subrange(0, k as int)), arr_sep@),
                    decreases order.len() - k,
                {
                    let j = order[k];
                    proof {
                        assert(decreases_to!(*d => d[j as int]));
                        assert(decreases_to!(d[j as int] => d[j as int].1));
                        assert(decreases_to!(*self => self->Dict_0));
                        assert(decreases_to!(*self => d[j as int].1));
                    }
                    let value = d[j].1.to_string_with_sep(arr_sep);
                    let key = lossy_string(d[j].0.as_slice());
                    if k > 0 {
                        buf.append(",");
                    }
                    buf.append("\"");
                    buf.append(key.as_str());
                    buf.append("\":");
                    buf.append(value.as_str());
                    proof {
                        let a = entries_at(d@, order@.subrange(0, k as int));
                        let b = entries_at(d@, order@.subrange(0, k + 1));
                        let e = (d@[j as int].0@, value_view(d@[j as int].1));
                        assert(b =~= a.push(e));
                        assert(a.push(e).drop_last() =~= a);
                        if k == 0 {
                            assert(a.push(e) =~= seq![e]);
                        }
                    }
                    k += 1;
                    assert(buf@ =~= start + show_entries(entries_at(d@, order@.subrange(0, k as int)), arr_sep@));
                }
                buf.append("}");
                assert(order@.subrange(0, order.len() as int) =~= order@);
                assert(buf@ =~= show(self@, arr_sep@));
            },
        }
        buf
    }

    /// The rendering of the value: list items separated by `, ` at the
    /// top when the value is a list, by `,` otherwise.
    pub fn to_string(&self) -> (r: String)
        ensures
            r@ == show(self@, if self@ is List { ", "@ } else { ","@ }),
    {
        match self {
            BencodeValue::List(_) => self.to_string_with_sep(", "),
            _ => self.to_string_with_sep(","),
        }
    }
}

} // verus!
