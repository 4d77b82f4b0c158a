//! The bencode codec: byte strings, integers, lists and dictionaries.
use vstd::prelude::*;

verus! {

/// The abstract value of a bencoded datum. Dictionary entries are held in
/// ascending key order, each key at most once.
pub enum Bv {
    Bytes(Seq<u8>),
    Num(int),
    List(Seq<Bv>),
    Dict(Seq<(Seq<u8>, Bv)>),
    Null,
}

/// A decoded or constructed bencode value.
///
/// A dictionary is held as a list of entries; like a map, a later entry with
/// an equal key replaces an earlier one, and the order of the list is not
/// part of the value (see `dict_view`).
pub enum BencodeValue {
    Dict(Vec<(Vec<u8>, BencodeValue)>),
    Bytes(Vec<u8>),
    Num(i64),
    List(Vec<BencodeValue>),
    Null,
}

/// Lexicographic order on raw bytes.
pub open spec fn key_lt(a: Seq<u8>, b: Seq<u8>) -> bool
    decreases a.len(),
{
    if a.len() == 0 {
        b.len() > 0
    } else if b.len() == 0 {
        false
    } else if a[0] != b[0] {
        a[0] < b[0]
    } else {
        key_lt(a.drop_first(), b.drop_first())
    }
}

/// Places `(k, v)` in an entry list kept in ascending key order, replacing
/// an entry with the same key.
pub open spec fn insert_entry(m: Seq<(Seq<u8>, Bv)>, k: Seq<u8>, v: Bv) -> Seq<(Seq<u8>, Bv)>
    decreases m.len(),
{
    if m.len() == 0 {
        seq![(k, v)]
    } else if k == m[0].0 {
        seq![(k, v)] + m.drop_first()
    } else if key_lt(k, m[0].0) {
        seq![(k, v)] + m
    } else {
        seq![m[0]] + insert_entry(m.drop_first(), k, v)
    }
}

pub open spec fn value_view(v: BencodeValue) -> Bv
    decreases v,
{
    match v {
        BencodeValue::Dict(d) => Bv::Dict(dict_view(d@)),
        BencodeValue::Bytes(b) => Bv::Bytes(b@),
        BencodeValue::Num(n) => Bv::Num(n as int),
        BencodeValue::List(l) => Bv::List(list_view(l@)),
        BencodeValue::Null => Bv::Null,
    }
}

pub open spec fn list_view(s: Seq<BencodeValue>) -> Seq<Bv>
    decreases s,
{
    if s.len() == 0 {
        seq![]
    } else {
        list_view(s.drop_last()).push(value_view(s.last()))
    }
}

/// The entries of a dictionary as a map: inserted in list order.
pub open spec fn dict_view(s: Seq<(Vec<u8>, BencodeValue)>) -> Seq<(Seq<u8>, Bv)>
    decreases s,
{
    if s.len() == 0 {
        seq![]
    } else {
        insert_entry(dict_view(s.drop_last()), s.last().0@, value_view(s.last().1))
    }
}

impl View for BencodeValue {
    type V = Bv;

    open spec fn view(&self) -> Bv {
        value_view(*self)
    }
}


/// The decimal digits of `n`, most significant first, with no leading zero.
pub open spec fn dec(n: nat) -> Seq<u8>
    decreases n,
{
    if n < 10 {
        seq![(48 + n) as u8]
    } else {
        dec(n / 10).push((48 + n % 10) as u8)
    }
}

/// The decimal text of an integer, with a leading `-` when negative.
pub open spec fn int_text(n: int) -> Seq<u8> {
    if n < 0 {
        seq![45u8] + dec((-n) as nat)
    } else {
        dec(n as nat)
    }
}

/// `<len>:<bytes>`
pub open spec fn enc_bytes(b: Seq<u8>) -> Seq<u8> {
    dec(b.len()) + seq![58u8] + b
}

/// The canonical encoding of a value. `Null` has none.
pub open spec fn enc(v: Bv) -> Seq<u8>
    decreases v,
{
    match v {
        Bv::Bytes(b) => enc_bytes(b),
        Bv::Num(n) => seq![105u8] + int_text(n) + seq![101u8],
        Bv::List(l) => seq![108u8] + enc_list(l) + seq![101u8],
        Bv::Dict(m) => seq![100u8] + enc_dict(m) + seq![101u8],
        Bv::Null => seq![],
    }
}

pub open spec fn enc_list(l: Seq<Bv>) -> Seq<u8>
    decreases l,
{
    if l.len() == 0 {
        seq![]
    } else {
        enc_list(l.drop_last()) + enc(l.last())
    }
}

/// Entries in the order given: each key as a byte string, then its value.
pub open spec fn enc_dict(m: Seq<(Seq<u8>, Bv)>) -> Seq<u8>
    decreases m,
{
    if m.len() == 0 {
        seq![]
    } else {
        enc_dict(m.drop_last()) + enc_bytes(m.last().0) + enc(m.last().1)
    }
}


/// A copy of `b[lo..hi]`.
pub fn copy_range(b: &[u8], lo: usize, hi: usize) -> (r: Vec<u8>)
    requires
        lo <= hi <= b.len(),
    ensures
        r@ == b@.subrange(lo as int, hi as int),
{
    let mut out: Vec<u8> = Vec::new();
    let mut i = lo;
    while i < hi
        invariant
            lo <= i <= hi <= b.len(),
            out@ == b@.subrange(lo as int, i as int),
        decreases hi - i,
    {
        out.push(b[i]);
        i += 1;
        assert(out@ =~= b@.subrange(lo as int, i as int));
    }
    out
}

pub(crate) fn write_dec(n: u64, buf: &mut Vec<u8>)
    ensures
        final(buf)@ == old(buf)@ + dec(n as nat),
    decreases n,
{
    if n < 10 {
        buf.push(48 + n as u8);
    } else {
        write_dec(n / 10, buf);
        buf.push(48 + (n % 10) as u8);
    }
}

fn write_int(n: i64, buf: &mut Vec<u8>)
    ensures
        final(buf)@ == old(buf)@ + int_text(n as int),
{
    if n < 0 {
        buf.push(45u8);
        let m: u64 = (-(n as i128)) as u64;
        write_dec(m, buf);
    } else {
        write_dec(n as u64, buf);
    }
}

fn write_bytes(b: &[u8], buf: &mut Vec<u8>)
    ensures
        final(buf)@ == old(buf)@ + enc_bytes(b@),
{
    write_dec(b.len() as u64, buf);
    buf.push(58u8);
    let ghost start = buf@;
    let mut i: usize = 0;
    while i < b.len()
        invariant
            i <= b.len(),
            buf@ == start + b@.subrange(0, i as int),
        decreases b.len() - i,
    {
        buf.push(b[i]);
        i += 1;
        assert(buf@ =~= start + b@.subrange(0, i as int));
    }
    assert(b@.subrange(0, b.len() as int) =~= b@);
}

/// Compares two keys by raw byte value.
pub fn key_less(a: &[u8], b: &[u8]) -> (r: bool)
    ensures
        r == key_lt(a@, b@),
{
    let mut i: usize = 0;
    assert(a@.subrange(0, a.len() as int) =~= a@);
    assert(b@.subrange(0, b.len() as int) =~= b@);
    while i < a.len() && i < b.len()
        invariant
            i <= a.len(),
            i <= b.len(),
            key_lt(a@, b@) == key_lt(a@.subrange(i as int, a.len() as int), b@.subrange(i as int, b.len() as int)),
        decreases a.len() - i,
    {
        if a[i] != b[i] {
            return a[i] < b[i];
        }
        assert(a@.subrange(i as int, a.len() as int).drop_first() =~= a@.subrange(i + 1, a.len() as int));
        assert(b@.subrange(i as int, b.len() as int).drop_first() =~= b@.subrange(i + 1, b.len() as int));
        i += 1;
    }
    i == a.len() && i < b.len()
}

pub fn keys_equal(a: &[u8], b: &[u8]) -> (r: bool)
    ensures
        r == (a@ == b@),
{
    if a.len() != b.len() {
        return false;
    }
    let mut i: usize = 0;
    while i < a.len()
        invariant
            i <= a.len(),
            a.len() == b.len(),
            a@.subrange(0, i as int) == b@.subrange(0, i as int),
        decreases a.len() - i,
    {
        if a[i] != b[i] {
            assert(a@[i as int] != b@[i as int]);
            return false;
        }
        assert(a@.subrange(0, i + 1) =~= a@.subrange(0, i as int).push(a@[i as int]));
        assert(b@.subrange(0, i + 1) =~= b@.subrange(0, i as int).push(b@[i as int]));
        i += 1;
    }
    assert(a@ =~= a@.subrange(0, i as int));
    assert(b@ =~= b@.subrange(0, i as int));
    true
}


/// Entry keys strictly ascending.
pub open spec fn keys_sorted(m: Seq<(Seq<u8>, Bv)>) -> bool {
    forall|i: int, j: int| 0 <= i < j < m.len() ==> key_lt(#[trigger] m[i].0, #[trigger] m[j].0)
}

proof fn lemma_key_lt_irreflexive(a: Seq<u8>)
    ensures
        !key_lt(a, a),
    decreases a.len(),
{
    if a.len() > 0 {
        lemma_key_lt_irreflexive(a.drop_first());
    }
}

proof fn lemma_key_lt_asymmetric(a: Seq<u8>, b: Seq<u8>)
    ensures
        key_lt(a, b) ==> !key_lt(b, a),
    decreases a.len(),
{
    if a.len() > 0 && b.len() > 0 && a[0] == b[0] {
        lemma_key_lt_asymmetric(a.drop_first(), b.drop_first());
    }
}

proof fn lemma_key_lt_total(a: Seq<u8>, b: Seq<u8>)
    ensures
        a != b ==> key_lt(a, b) || key_lt(b, a),
    decreases a.len(),
{
    if a.len() > 0 && b.len() > 0 && a[0] == b[0] {
        lemma_key_lt_total(a.drop_first(), b.drop_first());
        if a.drop_first() == b.drop_first() {
            assert(a =~= seq![a[0]] + a.drop_first());
            assert(b =~= seq![b[0]] + b.drop_first());
        }
    } else if a.len() == 0 && b.len() == 0 {
        assert(a =~= b);
    }
}

proof fn lemma_key_lt_transitive(a: Seq<u8>, b: Seq<u8>, c: Seq<u8>)
    ensures
        key_lt(a, b) && key_lt(b, c) ==> key_lt(a, c),
    decreases a.len(),
{
    if a.len() > 0 && b.len() > 0 && c.len() > 0 {
        lemma_key_lt_transitive(a.drop_first(), b.drop_first(), c.drop_first());
    }
}

/// Where a scan stops, `insert_entry` splices the entry in.
proof fn lemma_insert_at(m: Seq<(Seq<u8>, Bv)>, k: Seq<u8>, v: Bv, p: int)
    requires
        0 <= p <= m.len(),
        forall|q: int| 0 <= q < p ==> key_lt(#[trigger] m[q].0, k),
        p < m.len() ==> !key_lt(m[p].0, k),
    ensures
        p < m.len() && m[p].0 == k ==> insert_entry(m, k, v) == m.subrange(0, p) + seq![(k, v)]
            + m.subrange(p + 1, m.len() as int),
        !(p < m.len() && m[p].0 == k) ==> insert_entry(m, k, v) == m.subrange(0, p) + seq![(k, v)]
            + m.subrange(p, m.len() as int),
    decreases p,
{
    if p == 0 {
        if m.len() > 0 && m[0].0 != k {
            lemma_key_lt_total(m[0].0, k);
        }
        assert(m.subrange(0, 0) + seq![(k, v)] + m.subrange(0, m.len() as int) =~= seq![(k, v)] + m);
        if m.len() > 0 {
            assert(m.subrange(0, 0) + seq![(k, v)] + m.subrange(1, m.len() as int) =~= seq![(k, v)]
                + m.drop_first());
        }
    } else {
        lemma_key_lt_irreflexive(k);
        lemma_key_lt_asymmetric(m[0].0, k);
        assert(key_lt(m[0].0, k));
        let r = m.drop_first();
        assert forall|q: int| 0 <= q < p - 1 implies key_lt(#[trigger] r[q].0, k) by {
            assert(r[q] == m[q + 1]);
        }
        lemma_insert_at(r, k, v, p - 1);
        assert(m.subrange(0, p) =~= seq![m[0]] + r.subrange(0, p - 1));
        if p < m.len() {
            assert(m.subrange(p + 1, m.len() as int) =~= r.subrange(p, r.len() as int));
        }
        assert(m.subrange(p, m.len() as int) =~= r.subrange(p - 1, r.len() as int));
    }
}

proof fn lemma_insert_sorted(m: Seq<(Seq<u8>, Bv)>, k: Seq<u8>, v: Bv)
    requires
        keys_sorted(m),
    ensures
        keys_sorted(insert_entry(m, k, v)),
        forall|e| #[trigger] insert_entry(m, k, v).contains(e) ==> e == (k, v) || m.contains(e),
    decreases m.len(),
{
    let r = insert_entry(m, k, v);
    if m.len() == 0 {
    } else if k == m[0].0 {
        assert forall|i: int, j: int| 0 <= i < j < r.len() implies key_lt(#[trigger] r[i].0, #[trigger] r[j].0) by {
            if i > 0 {
                assert(r[i] == m[i]);
            }
            assert(r[j] == m[j]);
        }
        assert forall|e| #[trigger] r.contains(e) implies e == (k, v) || m.contains(e) by {
            let i = choose|i: int| 0 <= i < r.len() && r[i] == e;
            if i > 0 {
                assert(m[i] == e);
            }
        }
    } else if key_lt(k, m[0].0) {
        assert forall|i: int, j: int| 0 <= i < j < r.len() implies key_lt(#[trigger] r[i].0, #[trigger] r[j].0) by {
            assert(r[j] == m[j - 1]);
            if i > 0 {
                assert(r[i] == m[i - 1]);
            } else if j > 1 {
                lemma_key_lt_transitive(k, m[0].0, m[j - 1].0);
            }
        }
        assert forall|e| #[trigger] r.contains(e) implies e == (k, v) || m.contains(e) by {
            let i = choose|i: int| 0 <= i < r.len() && r[i] == e;
            if i > 0 {
                assert(m[i - 1] == e);
            }
        }
    } else {
        let t = m.drop_first();
        assert(keys_sorted(t)) by {
            assert forall|i: int, j: int| 0 <= i < j < t.len() implies key_lt(#[trigger] t[i].0, #[trigger] t[j].0) by {
                assert(t[i] == m[i + 1] && t[j] == m[j + 1]);
            }
        }
        lemma_insert_sorted(t, k, v);
        let rt = insert_entry(t, k, v);
        assert(r == seq![m[0]] + rt);
        lemma_key_lt_total(k, m[0].0);
        assert forall|i: int, j: int| 0 <= i < j < r.len() implies key_lt(#[trigger] r[i].0, #[trigger] r[j].0) by {
            if i > 0 {
                assert(r[i] == rt[i - 1] && r[j] == rt[j - 1]);
            } else {
                assert(r[j] == rt[j - 1]);
                assert(rt.contains(rt[j - 1]));
                if rt[j - 1] != (k, v) {
                    let q = choose|q: int| 0 <= q < t.len() && t[q] == rt[j - 1];
                    assert(m[q + 1] == t[q]);
                }
            }
        }
        assert forall|e| #[trigger] r.contains(e) implies e == (k, v) || m.contains(e) by {
            let i = choose|i: int| 0 <= i < r.len() && r[i] == e;
            if i > 0 {
                assert(rt[i - 1] == e);
                assert(rt.contains(e));
                if e != (k, v) {
                    let q = choose|q: int| 0 <= q < t.len() && t[q] == e;
                    assert(m[q + 1] == e);
                }
            } else {
                assert(m[0] == e);
            }
        }
    }
}

/// A dictionary's abstract entries are in strictly ascending key order.
pub proof fn lemma_dict_view_sorted(s: Seq<(Vec<u8>, BencodeValue)>)
    ensures
        keys_sorted(dict_view(s)),
    decreases s.len(),
{
    if s.len() > 0 {
        lemma_dict_view_sorted(s.drop_last());
        lemma_insert_sorted(dict_view(s.drop_last()), s.last().0@, value_view(s.last().1));
    }
}

pub open spec fn entries_at(d: Seq<(Vec<u8>, BencodeValue)>, o: Seq<usize>) -> Seq<(Seq<u8>, Bv)> {
    o.map_values(|j: usize| (d[j as int].0@, value_view(d[j as int].1)))
}

/// The positions of a dictionary's entries in ascending key order, a later
/// entry replacing an earlier one with an equal key.
pub(crate) fn dict_order(d: &Vec<(Vec<u8>, BencodeValue)>) -> (order: Vec<usize>)
    ensures
        entries_at(d@, order@) == dict_view(d@),
        forall|k: int| 0 <= k < order.len() ==> order[k] < d.len(),
{
    let mut order: Vec<usize> = Vec::new();
    let mut i: usize = 0;
    while i < d.len()
        invariant
            i <= d.len(),
            entries_at(d@, order@) == dict_view(d@.subrange(0, i as int)),
            forall|k: int| 0 <= k < order.len() ==> order[k] < i,
        decreases d.len() - i,
    {
        let key = &d[i].0;
        let ghost m = entries_at(d@, order@);
        let mut p: usize = 0;
        while p < order.len() && key_less(&d[order[p]].0, key)
            invariant
                p <= order.len(),
                m == entries_at(d@, order@),
                forall|k: int| 0 <= k < order.len() ==> order[k] < i,
                i < d.len(),
                key == &d@[i as int].0,
                forall|q: int| 0 <= q < p ==> key_lt(#[trigger] m[q].0, key@),
            decreases order.len() - p,
        {
            p += 1;
        }
        proof {
            lemma_insert_at(m, key@, value_view(d@[i as int].1), p as int);
        }
        if p < order.len() && keys_equal(&d[order[p]].0, key) {
            order.set(p, i);
            assert(entries_at(d@, order@) =~= m.subrange(0, p as int) + seq![(key@, value_view(d@[i as int].1))]
                + m.subrange(p + 1, m.len() as int));
        } else {
            order.insert(p, i);
            assert(entries_at(d@, order@) =~= m.subrange(0, p as int) + seq![(key@, value_view(d@[i as int].1))]
                + m.subrange(p as int, m.len() as int));
        }
        assert(d@.subrange(0, i + 1).drop_last() =~= d@.subrange(0, i as int));
        i += 1;
    }
    assert(d@.subrange(0, d.len() as int) =~= d@);
    order
}


impl BencodeValue {
    /// Appends the canonical encoding of the value to `buffer`; dictionary
    /// keys go out in ascending byte order.
    pub fn encode(&self, buffer: &mut Vec<u8>)
        ensures
            final(buffer)@ == old(buffer)@ + enc(self@),
        decreases self,
    {
        let ghost start = buffer@;
        match self {
            BencodeValue::Bytes(b) => {
                write_bytes(b.as_slice(), buffer);
            },
            BencodeValue::Num(n) => {
                buffer.push(105u8);
                write_int(*n, buffer);
                buffer.push(101u8);
                assert(buffer@ =~= start + enc(self@));
            },
            BencodeValue::List(l) => {
                buffer.push(108u8);
                let mut i: usize = 0;
                assert(list_view(l@.subrange(0, 0)) =~= seq![]);
                while i < l.len()
                    invariant
                        i <= l.len(),
                        *self == BencodeValue::List(*l),
                        buffer@ == start + seq![108u8] + enc_list(list_view(l@.subrange(0, i as int))),
                    decreases l.len() - i,
                {
                    proof {
                        assert(decreases_to!(*l => l[i as int]));
                        assert(*self == BencodeValue::List(*l));
                        assert(decreases_to!(*self => self->List_0));
                        assert(decreases_to!(*self => l[i as int]));
                    }
                    l[i].encode(buffer);
                    proof {
                        let a = l@.subrange(0, i as int);
                        let b = l@.subrange(0, i + 1);
                        assert(b.drop_last() =~= a);
                        let lv = list_view(a);
                        assert(list_view(b) == lv.push(value_view(l@[i as int])));
                        assert(lv.push(value_view(l@[i as int])).drop_last() =~= lv);
                        assert(enc_list(list_view(b)) == enc_list(lv) + enc(value_view(l@[i as int])));
                        assert(buffer@ =~= start + seq![108u8] + enc_list(list_view(b)));
                    }
                    i += 1;
                }
                buffer.push(101u8);
                assert(l@.subrange(0, l.len() as int) =~= l@);
                assert(buffer@ =~= start + enc(self@));
            },
            BencodeValue::Dict(d) => {
                buffer.push(100u8);
                let order = dict_order(d);
                let mut k: usize = 0;
                assert(entries_at(d@, order@.subrange(0, 0)) =~= seq![]);
                while k < order.len()
                    invariant
                        k <= order.len(),
                        *self == BencodeValue::Dict(*d),
                        forall|q: int| 0 <= q < order.len() ==> order[q] < d.len(),
                        buffer@ == start + seq![100u8] + enc_dict(entries_at(d@, order@.subrange(0, k as int))),
                    decreases order.len() - k,
                {
                    let j = order[k];
                    write_bytes(d[j].0.as_slice(), buffer);
                    proof {
                        assert(decreases_to!(*d => d[j as int]));
                        assert(decreases_to!(d[j as int] => d[j as int].1));
                        assert(decreases_to!(*self => self->Dict_0));
                        assert(decreases_to!(*self => d[j as int].1));
                    }
                    d[j].1.encode(buffer);
                    proof {
                        let a = entries_at(d@, order@.subrange(0, k as int));
                        let b = entries_at(d@, order@.subrange(0, k + 1));
                        let e = (d@[j as int].0@, value_view(d@[j as int].1));
                        assert(b =~= a.push(e));
                        assert(a.push(e).drop_last() =~= a);
                        assert(buffer@ =~= start + seq![100u8] + enc_dict(b));
                    }
                    k += 1;
                }
                buffer.push(101u8);
                assert(order@.subrange(0, order.len() as int) =~= order@);
                assert(buffer@ =~= start + enc(self@));
            },
            BencodeValue::Null => {
                assert(buffer@ =~= start + enc(self@));
            },
        }
    }
}


/// Why decoding failed.
#[derive(Debug, PartialEq, Eq, Clone, Copy)]
pub enum BencodeError {
    /// Unknown prefix, missing delimiter, bad integer payload, or a string
    /// length that runs past the input.
    MalformedInput,
}

pub open spec fn is_digit(c: u8) -> bool {
    48 <= c <= 57
}

pub open spec fn all_digits(s: Seq<u8>) -> bool {
    forall|i: int| 0 <= i < s.len() ==> is_digit(#[trigger] s[i])
}

pub open spec fn digits_value(s: Seq<u8>) -> nat
    decreases s.len(),
{
    if s.len() == 0 {
        0
    } else {
        digits_value(s.drop_last()) * 10 + (s.last() - 48) as nat
    }
}

/// The first index at or after `i` that holds `c`.
pub open spec fn first_from(s: Seq<u8>, c: u8, i: int) -> Option<int>
    decreases s.len() - i,
{
    if i < 0 || i >= s.len() {
        None
    } else if s[i] == c {
        Some(i)
    } else {
        first_from(s, c, i + 1)
    }
}

pub const I64_MAX: u64 = 9223372036854775807;

/// A signed decimal as `i64::from_str` reads it: an optional `+` or `-`,
/// then at least one digit, in range.
pub open spec fn int_payload(p: Seq<u8>) -> Option<int> {
    if p.len() > 0 && p[0] == 45u8 {
        let d = p.drop_first();
        if d.len() > 0 && all_digits(d) && digits_value(d) <= I64_MAX + 1 {
            Some(-(digits_value(d) as int))
        } else {
            None
        }
    } else {
        let d = if p.len() > 0 && p[0] == 43u8 { p.drop_first() } else { p };
        if d.len() > 0 && all_digits(d) && digits_value(d) <= I64_MAX {
            Some(digits_value(d) as int)
        } else {
            None
        }
    }
}

/// Reads one value from the front of `s`: the value and the number of bytes
/// it took.
pub open spec fn parse(s: Seq<u8>) -> Option<(Bv, int)>
    decreases s.len(), 1int,
{
    if s.len() == 0 {
        None
    } else if is_digit(s[0]) {
        match first_from(s, 58u8, 0) {
            None => None,
            Some(c) => {
                let d = s.subrange(0, c);
                let end = c + 1 + digits_value(d);
                if !all_digits(d) || end > s.len() {
                    None
                } else {
                    Some((Bv::Bytes(s.subrange(c + 1, end)), end))
                }
            },
        }
    } else if s[0] == 105u8 {
        match first_from(s, 101u8, 1) {
            None => None,
            Some(e) => match int_payload(s.subrange(1, e)) {
                None => None,
                Some(n) => Some((Bv::Num(n), e + 1)),
            },
        }
    } else if s[0] == 108u8 {
        match parse_items(s.drop_first()) {
            None => None,
            Some((l, m)) => Some((Bv::List(l), m + 1)),
        }
    } else if s[0] == 100u8 {
        match parse_pairs(s.drop_first()) {
            None => None,
            Some((ps, m)) => Some((Bv::Dict(fold_pairs(ps)), m + 1)),
        }
    } else {
        None
    }
}

/// List items up to and including the closing `e`.
pub open spec fn parse_items(s: Seq<u8>) -> Option<(Seq<Bv>, int)>
    decreases s.len(), 2int,
{
    if s.len() == 0 {
        None
    } else if s[0] == 101u8 {
        Some((seq![], 1))
    } else {
        match parse(s) {
            None => None,
            Some((v, n)) => if 1 <= n <= s.len() {
                match parse_items(s.subrange(n, s.len() as int)) {
                    None => None,
                    Some((vs, m)) => Some((seq![v] + vs, n + m)),
                }
            } else {
                None
            },
        }
    }
}

/// Dictionary entries, in input order, up to and including the closing `e`.
pub open spec fn parse_pairs(s: Seq<u8>) -> Option<(Seq<(Seq<u8>, Bv)>, int)>
    decreases s.len(), 2int,
{
    if s.len() == 0 {
        None
    } else if s[0] == 101u8 {
        Some((seq![], 1))
    } else {
        match parse(s) {
            Some((Bv::Bytes(k), n)) => if 1 <= n <= s.len() {
                match parse(s.subrange(n, s.len() as int)) {
                    None => None,
                    Some((v, m)) => if 1 <= m <= s.len() - n {
                        match parse_pairs(s.subrange(n + m, s.len() as int)) {
                            None => None,
                            Some((ps, r)) => Some((seq![(k, v)] + ps, n + m + r)),
                        }
                    } else {
                        None
                    },
                }
            } else {
                None
            },
            _ => None,
        }
    }
}

/// Entries inserted in order, a later key replacing an earlier one.
pub open spec fn fold_pairs(ps: Seq<(Seq<u8>, Bv)>) -> Seq<(Seq<u8>, Bv)>
    decreases ps.len(),
{
    if ps.len() == 0 {
        seq![]
    } else {
        insert_entry(fold_pairs(ps.drop_last()), ps.last().0, ps.last().1)
    }
}


pub open spec fn suf(s: Seq<u8>, i: int) -> Seq<u8> {
    s.subrange(i, s.len() as int)
}

proof fn lemma_digits_monotone(s: Seq<u8>, k: int, j: int)
    requires
        0 <= k <= j <= s.len(),
    ensures
        digits_value(s.subrange(0, k)) <= digits_value(s.subrange(0, j)),
    decreases j - k,
{
    if k < j {
        lemma_digits_monotone(s, k, j - 1);
        assert(s.subrange(0, j).drop_last() =~= s.subrange(0, j - 1));
    }
}

fn find_byte(s: &[u8], c: u8, from: usize) -> (r: Option<usize>)
    ensures
        match r {
            Some(i) => first_from(s@, c, from as int) == Some(i as int) && from <= i < s.len(),
            None => first_from(s@, c, from as int) is None,
        },
{
    let mut i = from;
    while i < s.len()
        invariant
            from <= i,
            first_from(s@, c, from as int) == first_from(s@, c, i as int),
        decreases s.len() - i,
    {
        if s[i] == c {
            return Some(i);
        }
        i += 1;
    }
    None
}

/// The decimal value of `s[lo..hi]` when it is all digits and at most `bound`.
fn read_digits(s: &[u8], lo: usize, hi: usize, bound: u64) -> (r: Option<u64>)
    requires
        lo <= hi <= s.len(),
    ensures
        match r {
            Some(v) => all_digits(s@.subrange(lo as int, hi as int)) && v as nat == digits_value(
                s@.subrange(lo as int, hi as int),
            ) && v <= bound,
            None => !(all_digits(s@.subrange(lo as int, hi as int)) && digits_value(
                s@.subrange(lo as int, hi as int),
            ) <= bound),
        },
{
    let ghost d = s@.subrange(lo as int, hi as int);
    let mut acc: u64 = 0;
    let mut i = lo;
    assert(d.subrange(0, 0) =~= seq![]);
    while i < hi
        invariant
            lo <= i <= hi <= s.len(),
            d == s@.subrange(lo as int, hi as int),
            all_digits(d.subrange(0, i - lo)),
            acc as nat == digits_value(d.subrange(0, i - lo)),
            acc <= bound,
        decreases hi - i,
    {
        let c = s[i];
        if c < 48 || c > 57 {
            assert(d[i - lo] == c);
            return None;
        }
        let next: u128 = acc as u128 * 10 + (c - 48) as u128;
        assert(d.subrange(0, i - lo + 1).drop_last() =~= d.subrange(0, i - lo));
        assert(d[i - lo] == c);
        if next > bound as u128 {
            proof {
                if all_digits(d) {
                    lemma_digits_monotone(d, i - lo + 1, d.len() as int);
                    assert(d.subrange(0, d.len() as int) =~= d);
                }
            }
            return None;
        }
        acc = next as u64;
        i += 1;
        assert forall|q: int| 0 <= q < i - lo implies is_digit(#[trigger] d.subrange(0, i - lo)[q]) by {
            if q < i - lo - 1 {
                assert(d.subrange(0, i - lo)[q] == d.subrange(0, i - lo - 1)[q]);
            }
        }
    }
    assert(d.subrange(0, hi - lo) =~= d);
    Some(acc)
}

fn read_int_payload(s: &[u8], lo: usize, hi: usize) -> (r: Option<i64>)
    requires
        lo <= hi <= s.len(),
    ensures
        match r {
            Some(n) => int_payload(s@.subrange(lo as int, hi as int)) == Some(n as int),
            None => int_payload(s@.subrange(lo as int, hi as int)) is None,
        },
{
    let ghost p = s@.subrange(lo as int, hi as int);
    if lo < hi && s[lo] == 45u8 {
        assert(p.drop_first() =~= s@.subrange(lo + 1, hi as int));
        if lo + 1 == hi {
            return None;
        }
        match read_digits(s, lo + 1, hi, I64_MAX + 1) {
            Some(v) => {
                let n: i128 = -(v as i128);
                Some(n as i64)
            },
            None => None,
        }
    } else {
        let start = if lo < hi && s[lo] == 43u8 { lo + 1 } else { lo };
        assert(start > lo ==> p.drop_first() =~= s@.subrange(start as int, hi as int));
        assert(start == lo ==> p =~= s@.subrange(start as int, hi as int));
        if start == hi {
            return None;
        }
        match read_digits(s, start, hi, I64_MAX) {
            Some(v) => Some(v as i64),
            None => None,
        }
    }
}


proof fn lemma_first_from_suffix(s: Seq<u8>, c: u8, p: int, k: int)
    requires
        0 <= p <= s.len(),
        0 <= k,
    ensures
        first_from(suf(s, p), c, k) == (match first_from(s, c, p + k) {
            Some(i) => Some(i - p),
            None => None,
        }),
    decreases s.len() - p - k,
{
    if p + k < s.len() {
        assert(suf(s, p)[k] == s[p + k]);
        lemma_first_from_suffix(s, c, p, k + 1);
    }
}

pub proof fn lemma_list_view_index(s: Seq<BencodeValue>)
    ensures
        list_view(s).len() == s.len(),
        forall|i: int| 0 <= i < s.len() ==> #[trigger] list_view(s)[i] == value_view(s[i]),
    decreases s.len(),
{
    if s.len() > 0 {
        lemma_list_view_index(s.drop_last());
    }
}

proof fn lemma_dict_view_fold(s: Seq<(Vec<u8>, BencodeValue)>, ps: Seq<(Seq<u8>, Bv)>)
    requires
        s.len() == ps.len(),
        forall|i: int| 0 <= i < s.len() ==> #[trigger] ps[i] == (s[i].0@, value_view(s[i].1)),
    ensures
        dict_view(s) == fold_pairs(ps),
    decreases s.len(),
{
    if s.len() > 0 {
        lemma_dict_view_fold(s.drop_last(), ps.drop_last());
    }
}

fn decode_at(s: &[u8], pos: usize) -> (r: Result<(BencodeValue, usize), BencodeError>)
    requires
        pos <= s.len(),
    ensures
        match r {
            Ok((v, n)) => parse(suf(s@, pos as int)) == Some((v@, n as int)) && 1 <= n && pos + n
                <= s.len(),
            Err(_) => parse(suf(s@, pos as int)) is None,
        },
    decreases s.len() - pos,
{
    let ghost t = suf(s@, pos as int);
    if pos == s.len() {
        return Err(BencodeError::MalformedInput);
    }
    let first = s[pos];
    assert(t[0] == first);
    if 48 <= first && first <= 57 {
        proof {
            lemma_first_from_suffix(s@, 58u8, pos as int, 0);
        }
        let colon = match find_byte(s, 58u8, pos) {
            Some(c) => c,
            None => {
                return Err(BencodeError::MalformedInput);
            },
        };
        assert(t.subrange(0, colon - pos) =~= s@.subrange(pos as int, colon as int));
        let room = (s.len() - colon - 1) as u64;
        match read_digits(s, pos, colon, room) {
            None => Err(BencodeError::MalformedInput),
            Some(len) => {
                let end = colon + 1 + len as usize;
                let bytes = copy_range(s, colon + 1, end);
                assert(t.subrange(colon - pos + 1, end - pos) =~= bytes@);
                Ok((BencodeValue::Bytes(bytes), end - pos))
            },
        }
    } else if first == 105u8 {
        proof {
            lemma_first_from_suffix(s@, 101u8, pos as int, 1);
        }
        let e = match find_byte(s, 101u8, pos + 1) {
            Some(e) => e,
            None => {
                return Err(BencodeError::MalformedInput);
            },
        };
        assert(t.subrange(1, e - pos) =~= s@.subrange(pos + 1, e as int));
        match read_int_payload(s, pos + 1, e) {
            None => Err(BencodeError::MalformedInput),
            Some(n) => Ok((BencodeValue::Num(n), e + 1 - pos)),
        }
    } else if first == 108u8 {
        let mut items: Vec<BencodeValue> = Vec::new();
        let mut cur = pos + 1;
        assert(t.drop_first() =~= suf(s@, cur as int));
        while cur < s.len() && s[cur] != 101u8
            invariant
                pos < cur <= s.len(),
                t == suf(s@, pos as int),
                t.len() > 0 && t[0] == 108u8,
                parse_items(t.drop_first()) == (match parse_items(suf(s@, cur as int)) {
                    None => None,
                    Some((vs, m)) => Some((list_view(items@) + vs, cur - pos - 1 + m)),
                }),
            decreases s.len() - cur,
        {
            let ghost u = suf(s@, cur as int);
            assert(u[0] == s[cur as int]);
            match decode_at(s, cur) {
                Err(e) => {
                    return Err(e);
                },
                Ok((v, n)) => {
                    assert(u.subrange(n as int, u.len() as int) =~= suf(s@, cur + n));
                    let ghost old_items = items@;
                    items.push(v);
                    assert(items@.drop_last() =~= old_items);
                    assert(items@.last() == v);
                    assert(list_view(items@) == list_view(old_items).push(value_view(v)));
                    proof {
                        match parse_items(suf(s@, cur + n)) {
                            None => {},
                            Some((vs, m)) => {
                                assert(list_view(old_items) + (seq![v@] + vs) =~= list_view(items@) + vs);
                            },
                        }
                    }
                    cur = cur + n;
                },
            }
        }
        if cur == s.len() {
            return Err(BencodeError::MalformedInput);
        }
        assert(suf(s@, cur as int)[0] == s[cur as int]);
        assert(list_view(items@) + seq![] =~= list_view(items@));
        Ok((BencodeValue::List(items), cur + 1 - pos))
    } else if first == 100u8 {
        let mut pairs: Vec<(Vec<u8>, BencodeValue)> = Vec::new();
        let ghost mut ps: Seq<(Seq<u8>, Bv)> = seq![];
        let mut cur = pos + 1;
        assert(t.drop_first() =~= suf(s@, cur as int));
        while cur < s.len() && s[cur] != 101u8
            invariant
                pos < cur <= s.len(),
                t == suf(s@, pos as int),
                t.len() > 0 && t[0] == 100u8,
                ps.len() == pairs.len(),
                forall|i: int| 0 <= i < ps.len() ==> #[trigger] ps[i] == (pairs@[i].0@, value_view(
                    pairs@[i].1,
                )),
                parse_pairs(t.drop_first()) == (match parse_pairs(suf(s@, cur as int)) {
                    None => None,
                    Some((qs, m)) => Some((ps + qs, cur - pos - 1 + m)),
                }),
            decreases s.len() - cur,
        {
            let ghost u = suf(s@, cur as int);
            assert(u[0] == s[cur as int]);
            let (key, n) = match decode_at(s, cur) {
                Err(e) => {
                    return Err(e);
                },
                Ok((BencodeValue::Bytes(k), n)) => (k, n),
                Ok(_) => {
                    return Err(BencodeError::MalformedInput);
                },
            };
            assert(u.subrange(n as int, u.len() as int) =~= suf(s@, cur + n));
            let (value, m) = match decode_at(s, cur + n) {
                Err(e) => {
                    return Err(e);
                },
                Ok(r) => r,
            };
            assert(suf(s@, cur + n).subrange(m as int, suf(s@, cur + n).len() as int) =~= suf(s@, cur + n + m));
            assert(u.subrange(n + m, u.len() as int) =~= suf(s@, cur + n + m));
            let ghost entry = (key@, value@);
            proof {
                match parse_pairs(suf(s@, cur + n + m)) {
                    None => {},
                    Some((qs, r)) => {
                        assert(ps + (seq![entry] + qs) =~= ps.push(entry) + qs);
                    },
                }
                ps = ps.push(entry);
            }
            pairs.push((key, value));
            cur = cur + n + m;
        }
        if cur == s.len() {
            return Err(BencodeError::MalformedInput);
        }
        assert(suf(s@, cur as int)[0] == s[cur as int]);
        assert(ps + seq![] =~= ps);
        proof {
            lemma_dict_view_fold(pairs@, ps);
        }
        Ok((BencodeValue::Dict(pairs), cur + 1 - pos))
    } else {
        Err(BencodeError::MalformedInput)
    }
}

impl BencodeValue {
    /// Decodes one value from the front of `encoded_value`, returning it and
    /// the number of bytes it took.
    pub fn decode_bencoded_value(encoded_value: &[u8]) -> (r: Result<(BencodeValue, usize), BencodeError>)
        ensures
            match r {
                Ok((v, n)) => parse(encoded_value@) == Some((v@, n as int)),
                Err(_) => parse(encoded_value@) is None,
            },
    {
        assert(suf(encoded_value@, 0) =~= encoded_value@);
        decode_at(encoded_value, 0)
    }
}


/// A value that has a canonical encoding: no `Null`, integers within `i64`,
/// string lengths within `i64`, dictionary keys strictly ascending.
pub open spec fn canonical(v: Bv) -> bool
    decreases v,
{
    match v {
        Bv::Bytes(b) => b.len() <= I64_MAX,
        Bv::Num(n) => -(I64_MAX + 1) <= n <= I64_MAX,
        Bv::List(l) => forall|i: int| 0 <= i < l.len() ==> canonical(#[trigger] l[i]),
        Bv::Dict(m) => keys_sorted(m) && forall|i: int|
            0 <= i < m.len() ==> (#[trigger] m[i]).0.len() <= I64_MAX && canonical(m[i].1),
        Bv::Null => false,
    }
}

proof fn lemma_dec(n: nat)
    ensures
        dec(n).len() >= 1,
        all_digits(dec(n)),
        digits_value(dec(n)) == n,
    decreases n,
{
    if n >= 10 {
        lemma_dec(n / 10);
        let d = dec(n);
        assert(d.drop_last() =~= dec(n / 10));
        assert(d.last() == (48 + n % 10) as u8);
        assert(n == (n / 10) * 10 + n % 10) by (nonlinear_arith);
        assert((d.last() - 48) as nat == n % 10);
        assert(digits_value(d) == digits_value(d.drop_last()) * 10 + (d.last() - 48) as nat);
        assert forall|i: int| 0 <= i < d.len() implies is_digit(#[trigger] d[i]) by {
            if i < d.len() - 1 {
                assert(d[i] == dec(n / 10)[i]);
            }
        }
    } else {
        assert(dec(n).drop_last() =~= seq![]);
        assert(dec(n).last() == (48 + n) as u8);
        assert(digits_value(dec(n)) == digits_value(dec(n).drop_last()) * 10 + (dec(n).last() - 48) as nat);
        assert(digits_value(dec(n).drop_last()) == 0);
    }
}

proof fn lemma_first_at(s: Seq<u8>, c: u8, k: int, j: int)
    requires
        0 <= k <= j < s.len(),
        s[j] == c,
        forall|i: int| k <= i < j ==> s[i] != c,
    ensures
        first_from(s, c, k) == Some(j),
    decreases j - k,
{
    if k < j {
        lemma_first_at(s, c, k + 1, j);
    }
}

proof fn lemma_parse_bytes(b: Seq<u8>, rest: Seq<u8>)
    requires
        b.len() <= I64_MAX,
    ensures
        parse(enc_bytes(b) + rest) == Some((Bv::Bytes(b), enc_bytes(b).len() as int)),
{
    let d = dec(b.len());
    lemma_dec(b.len());
    let s = enc_bytes(b) + rest;
    assert(s[0] == d[0]);
    assert forall|i: int| 0 <= i < d.len() implies s[i] != 58u8 by {
        assert(s[i] == d[i]);
    }
    lemma_first_at(s, 58u8, 0, d.len() as int);
    assert(s.subrange(0, d.len() as int) =~= d);
    assert(s.subrange(d.len() + 1int, d.len() + 1int + b.len()) =~= b);
}

proof fn lemma_int_payload(n: int)
    requires
        -(I64_MAX + 1) <= n <= I64_MAX,
    ensures
        int_payload(int_text(n)) == Some(n),
        all_digits(int_text(n).drop_first()),
        int_text(n).len() >= 1,
        int_text(n)[0] == 45u8 || is_digit(int_text(n)[0]),
{
    if n < 0 {
        lemma_dec((-n) as nat);
        assert(int_text(n).drop_first() =~= dec((-n) as nat));
    } else {
        lemma_dec(n as nat);
        let d = dec(n as nat);
        assert(d[0] != 45u8 && d[0] != 43u8);
        assert forall|i: int| 0 <= i < d.drop_first().len() implies is_digit(#[trigger] d.drop_first()[i]) by {
            assert(d.drop_first()[i] == d[i + 1]);
        }
    }
}

proof fn lemma_parse_num(n: int, rest: Seq<u8>)
    requires
        -(I64_MAX + 1) <= n <= I64_MAX,
    ensures
        parse(enc(Bv::Num(n)) + rest) == Some((Bv::Num(n), enc(Bv::Num(n)).len() as int)),
{
    let t = int_text(n);
    lemma_int_payload(n);
    let s = enc(Bv::Num(n)) + rest;
    assert forall|i: int| 1 <= i < 1 + t.len() implies s[i] != 101u8 by {
        assert(s[i] == t[i - 1]);
        if i > 1 {
            assert(t[i - 1] == t.drop_first()[i - 2]);
        }
    }
    assert(s[1int + t.len()] == 101u8);
    lemma_first_at(s, 101u8, 1, 1int + t.len());
    assert(s.subrange(1, 1int + t.len()) =~= t);
}

proof fn lemma_enc_list_front(l: Seq<Bv>)
    requires
        l.len() > 0,
    ensures
        enc_list(l) == enc(l[0]) + enc_list(l.drop_first()),
    decreases l.len(),
{
    if l.len() > 1 {
        lemma_enc_list_front(l.drop_last());
        assert(l.drop_last().drop_first() =~= l.drop_first().drop_last());
        assert(enc(l[0]) + enc_list(l.drop_first()) =~= enc(l[0]) + enc_list(l.drop_last().drop_first())
            + enc(l.last()));
    } else {
        assert(l.drop_last() =~= seq![]);
        assert(l.drop_first() =~= seq![]);
    }
}

proof fn lemma_enc_dict_front(m: Seq<(Seq<u8>, Bv)>)
    requires
        m.len() > 0,
    ensures
        enc_dict(m) == enc_bytes(m[0].0) + enc(m[0].1) + enc_dict(m.drop_first()),
    decreases m.len(),
{
    if m.len() > 1 {
        lemma_enc_dict_front(m.drop_last());
        assert(m.drop_last().drop_first() =~= m.drop_first().drop_last());
        assert(enc_bytes(m[0].0) + enc(m[0].1) + enc_dict(m.drop_first()) =~= enc_bytes(m[0].0) + enc(
            m[0].1,
        ) + enc_dict(m.drop_last().drop_first()) + enc_bytes(m.last().0) + enc(m.last().1));
    } else {
        assert(m.drop_last() =~= seq![]);
        assert(m.drop_first() =~= seq![]);
    }
}

proof fn lemma_fold_sorted(m: Seq<(Seq<u8>, Bv)>)
    requires
        keys_sorted(m),
    ensures
        fold_pairs(m) == m,
    decreases m.len(),
{
    if m.len() > 0 {
        let a = m.drop_last();
        assert(keys_sorted(a)) by {
            assert forall|i: int, j: int| 0 <= i < j < a.len() implies key_lt(#[trigger] a[i].0, #[trigger] a[j].0) by {
                assert(a[i] == m[i] && a[j] == m[j]);
            }
        }
        lemma_fold_sorted(a);
        assert forall|q: int| 0 <= q < a.len() implies key_lt(#[trigger] a[q].0, m.last().0) by {
            assert(a[q] == m[q]);
        }
        lemma_insert_at(a, m.last().0, m.last().1, a.len() as int);
        assert(a.subrange(0, a.len() as int) + seq![(m.last().0, m.last().1)] + a.subrange(
            a.len() as int,
            a.len() as int,
        ) =~= m);
    }
}

/// The first byte of a canonical encoding announces its kind: never `e`.
proof fn lemma_enc_head(v: Bv)
    requires
        canonical(v),
    ensures
        enc(v).len() >= 1,
        enc(v)[0] != 101u8,
{
    match v {
        Bv::Bytes(b) => {
            lemma_dec(b.len());
            assert(enc(v)[0] == dec(b.len())[0]);
        },
        _ => {},
    }
}

proof fn lemma_parse_enc(v: Bv, rest: Seq<u8>)
    requires
        canonical(v),
    ensures
        parse(enc(v) + rest) == Some((v, enc(v).len() as int)),
    decreases v,
{
    match v {
        Bv::Bytes(b) => {
            lemma_parse_bytes(b, rest);
        },
        Bv::Num(n) => {
            lemma_parse_num(n, rest);
        },
        Bv::List(l) => {
            let s = enc(v) + rest;
            lemma_parse_items(l, rest);
            assert(s.drop_first() =~= enc_list(l) + seq![101u8] + rest);
        },
        Bv::Dict(m) => {
            let s = enc(v) + rest;
            lemma_parse_pairs(m, rest);
            lemma_fold_sorted(m);
            assert(s.drop_first() =~= enc_dict(m) + seq![101u8] + rest);
        },
        Bv::Null => {},
    }
}

proof fn lemma_parse_items(l: Seq<Bv>, rest: Seq<u8>)
    requires
        forall|i: int| 0 <= i < l.len() ==> canonical(#[trigger] l[i]),
    ensures
        parse_items(enc_list(l) + seq![101u8] + rest) == Some((l, enc_list(l).len() + 1int)),
    decreases l,
{
    let s = enc_list(l) + seq![101u8] + rest;
    if l.len() == 0 {
        assert(s[0] == 101u8);
        assert(l =~= seq![]);
    } else {
        lemma_enc_list_front(l);
        let t = l.drop_first();
        assert(canonical(l[0]));
        assert forall|i: int| 0 <= i < t.len() implies canonical(#[trigger] t[i]) by {
            assert(t[i] == l[i + 1]);
        }
        let tail = enc_list(t) + seq![101u8] + rest;
        assert(s =~= enc(l[0]) + tail);
        lemma_enc_head(l[0]);
        assert(s[0] == enc(l[0])[0]);
        lemma_parse_enc(l[0], tail);
        assert(s.subrange(enc(l[0]).len() as int, s.len() as int) =~= tail);
        lemma_parse_items(t, rest);
        assert(seq![l[0]] + t =~= l);
    }
}

proof fn lemma_parse_pairs(m: Seq<(Seq<u8>, Bv)>, rest: Seq<u8>)
    requires
        forall|i: int| 0 <= i < m.len() ==> (#[trigger] m[i]).0.len() <= I64_MAX && canonical(m[i].1),
    ensures
        parse_pairs(enc_dict(m) + seq![101u8] + rest) == Some((m, enc_dict(m).len() + 1int)),
    decreases m,
{
    let s = enc_dict(m) + seq![101u8] + rest;
    if m.len() == 0 {
        assert(s[0] == 101u8);
        assert(m =~= seq![]);
    } else {
        lemma_enc_dict_front(m);
        let t = m.drop_first();
        assert(m[0].0.len() <= I64_MAX && canonical(m[0].1));
        assert forall|i: int| 0 <= i < t.len() implies (#[trigger] t[i]).0.len() <= I64_MAX && canonical(t[i].1) by {
            assert(t[i] == m[i + 1]);
        }
        let tail = enc_dict(t) + seq![101u8] + rest;
        let kb = enc_bytes(m[0].0);
        let vb = enc(m[0].1);
        assert(s =~= kb + (vb + tail));
        lemma_dec(m[0].0.len());
        assert(s[0] == kb[0]);
        assert(kb[0] == dec(m[0].0.len())[0]);
        lemma_parse_bytes(m[0].0, vb + tail);
        assert(s.subrange(kb.len() as int, s.len() as int) =~= vb + tail);
        lemma_parse_enc(m[0].1, tail);
        lemma_enc_head(m[0].1);
        assert(s.subrange(kb.len() + vb.len() as int, s.len() as int) =~= tail);
        lemma_parse_pairs(t, rest);
        assert(seq![(m[0].0, m[0].1)] + t =~= m);
    }
}

/// Round trip: decoding the canonical encoding of a value gives back the
/// value and consumes exactly its encoding, whatever follows it. So for every
/// well-formed input `b` (the encoding of a canonical value), re-encoding
/// what `decode` returns gives `b` byte for byte.
pub proof fn lemma_decode_encode(v: Bv, rest: Seq<u8>)
    requires
        canonical(v),
    ensures
        parse(enc(v) + rest) == Some((v, enc(v).len() as int)),
        parse(enc(v)) == Some((v, enc(v).len() as int)),
        enc(parse(enc(v))->Some_0.0) == enc(v),
{
    lemma_parse_enc(v, rest);
    lemma_parse_enc(v, seq![]);
    assert(enc(v) + seq![] =~= enc(v));
}


/// Dictionary keys go out in strictly ascending byte order: the encoding of a
/// dictionary is its abstract entries in list order, and that list ascends.
pub proof fn lemma_encode_orders_keys(d: Seq<(Vec<u8>, BencodeValue)>)
    ensures
        enc(Bv::Dict(dict_view(d))) == seq![100u8] + enc_dict(dict_view(d)) + seq![101u8],
        forall|i: int, j: int|
            0 <= i < j < dict_view(d).len() ==> key_lt(#[trigger] dict_view(d)[i].0, #[trigger] dict_view(d)[j].0),
{
    lemma_dict_view_sorted(d);
}

/// The value stored under `k` in an entry list.
pub open spec fn dict_get(m: Seq<(Seq<u8>, Bv)>, k: Seq<u8>) -> Option<Bv>
    decreases m.len(),
{
    if m.len() == 0 {
        None
    } else if m[0].0 == k {
        Some(m[0].1)
    } else {
        dict_get(m.drop_first(), k)
    }
}

/// The entry under `key` of a dictionary value; `None` for another kind.
pub open spec fn lookup(v: Bv, key: Seq<u8>) -> Option<Bv> {
    match v {
        Bv::Dict(m) => dict_get(m, key),
        _ => None,
    }
}

proof fn lemma_get_insert(m: Seq<(Seq<u8>, Bv)>, k: Seq<u8>, v: Bv, q: Seq<u8>)
    ensures
        dict_get(insert_entry(m, k, v), q) == if q == k {
            Some(v)
        } else {
            dict_get(m, q)
        },
    decreases m.len(),
{
    let r = insert_entry(m, k, v);
    if m.len() == 0 {
        assert(r == seq![(k, v)]);
        assert(r.drop_first() =~= seq![]);
        assert(dict_get(r.drop_first(), q) == None::<Bv>);
    } else {
        if k == m[0].0 {
            assert(r == seq![(k, v)] + m.drop_first());
            assert(r.drop_first() =~= m.drop_first());
        } else if key_lt(k, m[0].0) {
            assert(r == seq![(k, v)] + m);
            assert(r.drop_first() =~= m);
        } else {
            lemma_get_insert(m.drop_first(), k, v, q);
            assert(r == seq![m[0]] + insert_entry(m.drop_first(), k, v));
            assert(r.drop_first() =~= insert_entry(m.drop_first(), k, v));
        }
        assert(r.len() > 0);
        assert(dict_get(r, q) == if r[0].0 == q {
            Some(r[0].1)
        } else {
            dict_get(r.drop_first(), q)
        });
    }
}

impl BencodeValue {
    /// The value under `key` when `self` is a dictionary (the last entry with
    /// that key wins); `None` when the key is absent or `self` is no
    /// dictionary.
    pub fn get(&self, key: &[u8]) -> (r: Option<&BencodeValue>)
        ensures
            match r {
                Some(x) => lookup(self@, key@) == Some(x@),
                None => lookup(self@, key@) is None,
            },
    {
        match self {
            BencodeValue::Dict(d) => {
                let mut i = d.len();
                assert(d@.subrange(0, d.len() as int) =~= d@);
                while i > 0
                    invariant
                        i <= d.len(),
                        *self == BencodeValue::Dict(*d),
                        dict_get(dict_view(d@), key@) == dict_get(dict_view(d@.subrange(0, i as int)), key@),
                    decreases i,
                {
                    let ghost pre = d@.subrange(0, i as int);
                    assert(pre.drop_last() =~= d@.subrange(0, i - 1));
                    proof {
                        lemma_get_insert(dict_view(pre.drop_last()), pre.last().0@, value_view(pre.last().1), key@);
                    }
                    if keys_equal(d[i - 1].0.as_slice(), key) {
                        assert(pre.last() == d@[i - 1]);
                        return Some(&d[i - 1].1);
                    }
                    i -= 1;
                }
                None
            },
            _ => None,
        }
    }

    /// The `i`-th item when `self` is a list.
    pub fn at(&self, i: usize) -> (r: Option<&BencodeValue>)
        ensures
            match self@ {
                Bv::List(l) => match r {
                    Some(x) => i < l.len() && x@ == l[i as int],
                    None => i >= l.len(),
                },
                _ => r is None,
            },
    {
        match self {
            BencodeValue::List(l) => {
                proof {
                    lemma_list_view_index(l@);
                }
                if i < l.len() {
                    Some(&l[i])
                } else {
                    None
                }
            },
            _ => None,
        }
    }
}

} // verus!
