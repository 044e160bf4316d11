//! Canonical binary encoding of the value model (a CBOR subset: minimal
//! heads, definite lengths, map keys in strictly increasing byte order,
//! links as tag 42 over a zero-prefixed byte string).
use vstd::prelude::*;
use vstd::string::StrSliceExecFns;
use crate::cid::{Cid, MAX_CID_LEN};
use crate::value::{Val, Value, view_items, view_entries, lemma_view_items, lemma_view_entries, lemma_view_items_push, lemma_view_entries_push};

verus! {

broadcast use vstd::utf8::encode_utf8_valid_utf8, vstd::utf8::encode_utf8_decode_utf8;

pub const MAJOR_UINT: u8 = 0;
pub const MAJOR_NEGINT: u8 = 1;
pub const MAJOR_BYTES: u8 = 2;
pub const MAJOR_TEXT: u8 = 3;
pub const MAJOR_LIST: u8 = 4;
pub const MAJOR_DICT: u8 = 5;
pub const MAJOR_TAG: u8 = 6;
pub const BYTE_FALSE: u8 = 0xf4;
pub const BYTE_TRUE: u8 = 0xf5;
pub const BYTE_NULL: u8 = 0xf6;
/// The tag that marks a link.
pub const LINK_TAG: u8 = 42;

/// `n` as `k` big-endian bytes (the low `k` bytes of `n`).
pub open spec fn be(n: nat, k: nat) -> Seq<u8>
    decreases k,
{
    if k == 0 {
        Seq::empty()
    } else {
        be(n / 256, (k - 1) as nat).push((n % 256) as u8)
    }
}

/// The number that big-endian bytes stand for.
pub open spec fn be_value(s: Seq<u8>) -> nat
    decreases s.len(),
{
    if s.len() == 0 {
        0
    } else {
        be_value(s.drop_last()) * 256 + s.last() as nat
    }
}

/// Head of an item: its major type and its argument, in the fewest bytes.
pub open spec fn head(major: u8, n: nat) -> Seq<u8> {
    if n < 24 {
        seq![(major * 32 + n) as u8]
    } else if n < 0x100 {
        seq![(major * 32 + 24) as u8, n as u8]
    } else if n < 0x1_0000 {
        seq![(major * 32 + 25) as u8] + be(n, 2)
    } else if n < 0x1_0000_0000 {
        seq![(major * 32 + 26) as u8] + be(n, 4)
    } else {
        seq![(major * 32 + 27) as u8] + be(n, 8)
    }
}

/// Text as a text-string item.
pub open spec fn encode_text(s: Seq<char>) -> Seq<u8> {
    head(MAJOR_TEXT, vstd::utf8::encode_utf8(s).len()) + vstd::utf8::encode_utf8(s)
}

/// The canonical encoding of a value.
pub open spec fn encode_val(v: Val) -> Seq<u8>
    decreases v,
{
    match v {
        Val::Null => seq![BYTE_NULL],
        Val::Bool(b) => if b { seq![BYTE_TRUE] } else { seq![BYTE_FALSE] },
        Val::Integer(i) => if i >= 0 {
            head(MAJOR_UINT, i as nat)
        } else {
            head(MAJOR_NEGINT, (-1 - i) as nat)
        },
        Val::Text(s) => encode_text(s),
        Val::Bytes(b) => head(MAJOR_BYTES, b.len()) + b,
        Val::List(l) => head(MAJOR_LIST, l.len()) + encode_list(l),
        Val::Dict(d) => head(MAJOR_DICT, d.len()) + encode_dict(d),
        Val::Link(c) => seq![(MAJOR_TAG * 32 + 24) as u8, LINK_TAG] + head(MAJOR_BYTES, c.len() + 1)
            + seq![0u8] + c,
    }
}

/// The encodings of the items of a list, one after the other.
pub open spec fn encode_list(l: Seq<Val>) -> Seq<u8>
    decreases l,
{
    if l.len() == 0 {
        Seq::empty()
    } else {
        encode_val(l[0]) + encode_list(l.subrange(1, l.len() as int))
    }
}

/// The encodings of the entries of a map, key then value, one after the other.
pub open spec fn encode_dict(d: Seq<(Seq<char>, Val)>) -> Seq<u8>
    decreases d,
{
    if d.len() == 0 {
        Seq::empty()
    } else {
        encode_text(d[0].0) + encode_val(d[0].1) + encode_dict(d.subrange(1, d.len() as int))
    }
}

} // verus!

verus! {

/// Appends `n` as `k` big-endian bytes.
fn push_be(out: &mut Vec<u8>, n: u64, k: usize)
    ensures
        final(out)@ == old(out)@ + be(n as nat, k as nat),
    decreases k,
{
    if k > 0 {
        push_be(out, n / 256, k - 1);
        out.push((n % 256) as u8);
        proof {
            assert(be(n as nat, k as nat) == be((n / 256) as nat, (k - 1) as nat).push((n % 256) as u8));
            assert(final(out)@ =~= old(out)@ + be(n as nat, k as nat));
        }
    } else {
        assert(final(out)@ =~= old(out)@ + be(n as nat, k as nat));
    }
}

/// Appends the head of an item.
fn push_head(out: &mut Vec<u8>, major: u8, n: u64)
    requires
        major < 8,
    ensures
        final(out)@ == old(out)@ + head(major, n as nat),
{
    let ghost start = old(out)@;
    let m: u8 = major * 32;
    if n < 24 {
        out.push(m + n as u8);
        assert(out@ =~= start + head(major, n as nat));
    } else if n < 0x100 {
        out.push(m + 24);
        out.push(n as u8);
        assert(out@ =~= start + head(major, n as nat));
    } else if n < 0x1_0000 {
        out.push(m + 25);
        push_be(out, n, 2);
        assert(out@ =~= start + head(major, n as nat));
    } else if n < 0x1_0000_0000 {
        out.push(m + 26);
        push_be(out, n, 4);
        assert(out@ =~= start + head(major, n as nat));
    } else {
        out.push(m + 27);
        push_be(out, n, 8);
        assert(out@ =~= start + head(major, n as nat));
    }
}

proof fn lemma_encode_list_push(a: Seq<Val>, x: Val)
    ensures
        encode_list(a.push(x)) == encode_list(a) + encode_val(x),
    decreases a.len(),
{
    let ax = a.push(x);
    assert(ax[0] == if a.len() == 0 { x } else { a[0] });
    if a.len() == 0 {
        assert(ax.subrange(1, ax.len() as int) =~= Seq::<Val>::empty());
        assert(encode_list(ax.subrange(1, ax.len() as int)) == Seq::<u8>::empty());
        assert(encode_list(ax) =~= encode_list(a) + encode_val(x));
    } else {
        let rest = a.subrange(1, a.len() as int);
        assert(ax.subrange(1, ax.len() as int) =~= rest.push(x));
        lemma_encode_list_push(rest, x);
        assert(encode_list(ax) =~= encode_list(a) + encode_val(x));
    }
}

proof fn lemma_encode_dict_push(a: Seq<(Seq<char>, Val)>, x: (Seq<char>, Val))
    ensures
        encode_dict(a.push(x)) == encode_dict(a) + encode_text(x.0) + encode_val(x.1),
    decreases a.len(),
{
    let ax = a.push(x);
    assert(ax[0] == if a.len() == 0 { x } else { a[0] });
    if a.len() == 0 {
        assert(ax.subrange(1, ax.len() as int) =~= Seq::<(Seq<char>, Val)>::empty());
        assert(encode_dict(ax.subrange(1, ax.len() as int)) == Seq::<u8>::empty());
        assert(encode_dict(ax) =~= encode_dict(a) + encode_text(x.0) + encode_val(x.1));
    } else {
        let rest = a.subrange(1, a.len() as int);
        assert(ax.subrange(1, ax.len() as int) =~= rest.push(x));
        lemma_encode_dict_push(rest, x);
        assert(encode_dict(ax) =~= encode_dict(a) + encode_text(x.0) + encode_val(x.1));
    }
}

/// Appends a text-string item.
fn push_text(out: &mut Vec<u8>, s: &String)
    ensures
        final(out)@ == old(out)@ + encode_text(s@),
{
    let b = s.as_str().as_bytes();
    push_head(out, MAJOR_TEXT, b.len() as u64);
    out.extend_from_slice(b);
    assert(final(out)@ =~= old(out)@ + encode_text(s@));
}

/// Appends the encoding of `v`, its maps' entries in the order held.
fn encode_into(v: &Value, out: &mut Vec<u8>)
    ensures
        final(out)@ == old(out)@ + encode_val(v@),
    decreases v,
{
    let ghost start = old(out)@;
    match v {
        Value::Null => {
            out.push(BYTE_NULL);
            assert(out@ =~= start + encode_val(v@));
        },
        Value::Bool(b) => {
            if *b {
                out.push(BYTE_TRUE);
            } else {
                out.push(BYTE_FALSE);
            }
            assert(out@ =~= start + encode_val(v@));
        },
        Value::Integer(i) => {
            if *i >= 0 {
                push_head(out, MAJOR_UINT, *i as u64);
            } else {
                push_head(out, MAJOR_NEGINT, (-1 - *i) as u64);
            }
        },
        Value::Text(s) => {
            push_text(out, s);
        },
        Value::Bytes(b) => {
            push_head(out, MAJOR_BYTES, b.len() as u64);
            out.extend_from_slice(b.as_slice());
            assert(out@ =~= start + encode_val(v@));
        },
        Value::List(l) => {
            push_head(out, MAJOR_LIST, l.len() as u64);
            let ghost items = v@->List_0;
            proof { lemma_view_items(l@); }
            let ghost mid = out@;
            let mut i: usize = 0;
            while i < l.len()
                invariant
                    *v == Value::List(*l),
                    i <= l@.len(),
                    items.len() == l@.len(),
                    forall|j: int| 0 <= j < l@.len() ==> items[j] == l@[j]@,
                    out@ == mid + encode_list(items.subrange(0, i as int)),
                decreases l@.len() - i,
            {
                proof {
                    assert(decreases_to!(v => l@[i as int])) by {
                        broadcast use vstd::std_specs::vec::axiom_vec_decreases_to_view;
                        assert(decreases_to!(*v => (*v)->List_0));
                        assert(decreases_to!(*l => l@));
                        assert(decreases_to!(l@ => l@[i as int]));
                    }
                }
                encode_into(&l[i], out);
                proof {
                    lemma_encode_list_push(items.subrange(0, i as int), items[i as int]);
                    assert(items.subrange(0, i + 1) =~= items.subrange(0, i as int).push(items[i as int]));
                }
                i = i + 1;
            }
            assert(items.subrange(0, i as int) =~= items);
            assert(out@ =~= start + encode_val(v@));
        },
        Value::Dict(d) => {
            push_head(out, MAJOR_DICT, d.len() as u64);
            let ghost entries = v@->Dict_0;
            proof { lemma_view_entries(d@); }
            assert(entries.len() == d@.len());
            let ghost mid = out@;
            let mut i: usize = 0;
            while i < d.len()
                invariant
                    *v == Value::Dict(*d),
                    i <= d@.len(),
                    entries.len() == d@.len(),
                    forall|j: int| 0 <= j < d@.len() ==> entries[j] == (d@[j].0@, d@[j].1@),
                    out@ == mid + encode_dict(entries.subrange(0, i as int)),
                decreases d@.len() - i,
            {
                push_text(out, &d[i].0);
                proof {
                    assert(decreases_to!(v => d@[i as int].1)) by {
                        broadcast use vstd::std_specs::vec::axiom_vec_decreases_to_view;
                        assert(decreases_to!(*v => (*v)->Dict_0));
                        assert(decreases_to!(*d => d@));
                        assert(decreases_to!(d@ => d@[i as int]));
                        assert(decreases_to!(d@[i as int] => d@[i as int].1));
                    }
                }
                encode_into(&d[i].1, out);
                proof {
                    lemma_encode_dict_push(entries.subrange(0, i as int), entries[i as int]);
                    assert(entries.subrange(0, i + 1) =~= entries.subrange(0, i as int).push(entries[i as int]));
                }
                i = i + 1;
            }
            assert(entries.subrange(0, i as int) =~= entries);
            assert(out@ =~= start + encode_val(v@));
        },
        Value::Link(c) => {
            out.push(MAJOR_TAG * 32 + 24);
            out.push(LINK_TAG);
            let n = c.len();
            push_head(out, MAJOR_BYTES, n as u64 + 1);
            out.push(0u8);
            out.extend_from_slice(c.as_bytes());
            assert(out@ =~= start + encode_val(v@));
        },
    }
}

/// The canonical encoding of `v`: that of its normal form, every map in
/// key order (a later entry for a key replacing an earlier one). Decoding
/// it gives back the normal form, so `decode(encode(v)) = v` for every
/// value already in normal form, and two values with the same normal form
/// get the same encoding.
pub fn encode(v: &Value) -> (r: Vec<u8>)
    ensures
        r@ == canonical_encoding(v@),
        decode_val(r@) == Some(norm(v@)),
{
    let n = normalize(v);
    let mut out: Vec<u8> = Vec::new();
    encode_into(&n, &mut out);
    assert(out@ =~= encode_val(n@));
    proof {
        lemma_decode_encode(n@);
    }
    out
}

} // verus!

verus! {

/// `256` to the power `k`.
pub open spec fn p256(k: nat) -> nat
    decreases k,
{
    if k == 0 {
        1
    } else {
        256 * p256((k - 1) as nat)
    }
}

/// Number of argument bytes that follow a head byte with additional info `info`.
pub open spec fn arg_len(info: int) -> int {
    if info == 24 {
        1
    } else if info == 25 {
        2
    } else if info == 26 {
        4
    } else {
        8
    }
}

/// Reads a head at `pos`: its major type, its argument and the position after it.
pub open spec fn parse_head(s: Seq<u8>, pos: int) -> Option<(int, nat, int)> {
    if 0 <= pos < s.len() {
        let major = s[pos] as int / 32;
        let info = s[pos] as int % 32;
        if info < 24 {
            Some((major, info as nat, pos + 1))
        } else if info <= 27 && pos + 1 + arg_len(info) <= s.len() {
            Some((major, be_value(s.subrange(pos + 1, pos + 1 + arg_len(info))), pos + 1 + arg_len(info)))
        } else {
            None
        }
    } else {
        None
    }
}

/// Reads a text-string item at `pos`.
pub open spec fn parse_text(s: Seq<u8>, pos: int) -> Option<(Seq<char>, int)> {
    match parse_head(s, pos) {
        Some((major, n, next)) => if major == MAJOR_TEXT && next + n <= s.len()
            && vstd::utf8::valid_utf8(s.subrange(next, next + n)) {
            Some((vstd::utf8::decode_utf8(s.subrange(next, next + n)), next + n))
        } else {
            None
        },
        None => None,
    }
}

/// Texts in lexicographic order of their characters, strictly. For
/// UTF-8 this is also the lexicographic order of the encoded bytes.
pub open spec fn chars_lt(a: Seq<char>, b: Seq<char>) -> bool
    decreases a.len(),
{
    if a.len() == 0 {
        b.len() > 0
    } else if b.len() == 0 {
        false
    } else if a[0] != b[0] {
        a[0] < b[0]
    } else {
        chars_lt(a.subrange(1, a.len() as int), b.subrange(1, b.len() as int))
    }
}

/// Map keys in strictly increasing order.
pub open spec fn keys_ascending(d: Seq<(Seq<char>, Val)>) -> bool {
    forall|i: int| 0 < i < d.len() ==> chars_lt(#[trigger] d[i - 1].0, d[i].0)
}

/// Reads one item at `pos`: the value and the position after it.
pub open spec fn parse_val(s: Seq<u8>, pos: int) -> Option<(Val, int)>
    decreases s.len() - pos, 0int,
{
    if !(0 <= pos < s.len()) {
        None
    } else if s[pos] == BYTE_NULL {
        Some((Val::Null, pos + 1))
    } else if s[pos] == BYTE_TRUE {
        Some((Val::Bool(true), pos + 1))
    } else if s[pos] == BYTE_FALSE {
        Some((Val::Bool(false), pos + 1))
    } else {
        match parse_head(s, pos) {
            None => None,
            Some((major, n, next)) => if major == MAJOR_UINT {
                if n <= i64::MAX {
                    Some((Val::Integer(n as int), next))
                } else {
                    None
                }
            } else if major == MAJOR_NEGINT {
                if n <= i64::MAX {
                    Some((Val::Integer(-1 - n), next))
                } else {
                    None
                }
            } else if major == MAJOR_BYTES {
                if next + n <= s.len() {
                    Some((Val::Bytes(s.subrange(next, next + n)), next + n))
                } else {
                    None
                }
            } else if major == MAJOR_TEXT {
                match parse_text(s, pos) {
                    Some((t, e)) => Some((Val::Text(t), e)),
                    None => None,
                }
            } else if major == MAJOR_LIST {
                match parse_list(s, next, n) {
                    Some((l, e)) => Some((Val::List(l), e)),
                    None => None,
                }
            } else if major == MAJOR_DICT {
                match parse_dict(s, next, n) {
                    Some((d, e)) => if keys_ascending(d) {
                        Some((Val::Dict(d), e))
                    } else {
                        None
                    },
                    None => None,
                }
            } else if major == MAJOR_TAG && n == LINK_TAG {
                match parse_head(s, next) {
                    Some((m2, len, start)) => if m2 == MAJOR_BYTES && 1 <= len <= MAX_CID_LEN + 1
                        && start + len <= s.len() && s[start] == 0 {
                        Some((Val::Link(s.subrange(start + 1, start + len)), start + len))
                    } else {
                        None
                    },
                    None => None,
                }
            } else {
                None
            },
        }
    }
}

/// Reads `count` items from `pos` on.
pub open spec fn parse_list(s: Seq<u8>, pos: int, count: nat) -> Option<(Seq<Val>, int)>
    decreases s.len() - pos, 1int,
{
    if count == 0 {
        if 0 <= pos <= s.len() {
            Some((Seq::empty(), pos))
        } else {
            None
        }
    } else if !(0 <= pos < s.len()) {
        None
    } else {
        match parse_val(s, pos) {
            Some((v, e)) => if pos < e <= s.len() {
                match parse_list(s, e, (count - 1) as nat) {
                    Some((rest, e2)) => Some((seq![v] + rest, e2)),
                    None => None,
                }
            } else {
                None
            },
            None => None,
        }
    }
}

/// Reads `count` map entries from `pos` on.
pub open spec fn parse_dict(s: Seq<u8>, pos: int, count: nat) -> Option<(Seq<(Seq<char>, Val)>, int)>
    decreases s.len() - pos, 1int,
{
    if count == 0 {
        if 0 <= pos <= s.len() {
            Some((Seq::empty(), pos))
        } else {
            None
        }
    } else if !(0 <= pos < s.len()) {
        None
    } else {
        match parse_text(s, pos) {
            Some((k, ke)) => match parse_val(s, ke) {
                Some((v, e)) => if pos < e <= s.len() {
                    match parse_dict(s, e, (count - 1) as nat) {
                        Some((rest, e2)) => Some((seq![(k, v)] + rest, e2)),
                        None => None,
                    }
                } else {
                    None
                },
                None => None,
            },
            None => None,
        }
    }
}

/// The value that `s` encodes, if it encodes exactly one.
pub open spec fn decode_val(s: Seq<u8>) -> Option<Val> {
    match parse_val(s, 0) {
        Some((v, e)) => if e == s.len() {
            Some(v)
        } else {
            None
        },
        None => None,
    }
}

} // verus!

verus! {

/// Integers within 64 bits, lengths that a head can carry, and map keys in
/// strictly increasing byte order, throughout the value.
pub open spec fn canonical(v: Val) -> bool
    decreases v,
{
    match v {
        Val::Integer(i) => i64::MIN <= i <= i64::MAX,
        Val::Text(t) => vstd::utf8::encode_utf8(t).len() <= u64::MAX,
        Val::Bytes(b) => b.len() <= u64::MAX,
        Val::List(l) => l.len() <= u64::MAX && canonical_list(l),
        Val::Dict(d) => d.len() <= u64::MAX && keys_ascending(d) && canonical_dict(d),
        Val::Link(c) => c.len() <= MAX_CID_LEN,
        _ => true,
    }
}

/// Every item is canonical.
pub open spec fn canonical_list(l: Seq<Val>) -> bool
    decreases l,
{
    l.len() == 0 || (canonical(l[0]) && canonical_list(l.subrange(1, l.len() as int)))
}

/// Every key fits a head and every value is canonical.
pub open spec fn canonical_dict(d: Seq<(Seq<char>, Val)>) -> bool
    decreases d,
{
    d.len() == 0 || (vstd::utf8::encode_utf8(d[0].0).len() <= u64::MAX && canonical(d[0].1)
        && canonical_dict(d.subrange(1, d.len() as int)))
}

proof fn lemma_be(n: nat, k: nat)
    requires
        n < p256(k),
    ensures
        be(n, k).len() == k,
        be_value(be(n, k)) == n,
    decreases k,
{
    if k > 0 {
        let q = n / 256;
        assert(q < p256((k - 1) as nat)) by (nonlinear_arith)
            requires
                n < 256 * p256((k - 1) as nat),
                q == n / 256,
        ;
        lemma_be(q, (k - 1) as nat);
        let b = be(n, k);
        assert(b.drop_last() =~= be(q, (k - 1) as nat));
        assert(q * 256 + n % 256 == n) by (nonlinear_arith)
            requires
                q == n / 256,
        ;
    }
}

proof fn lemma_p256()
    ensures
        p256(2) == 0x1_0000,
        p256(4) == 0x1_0000_0000,
        p256(8) == 0x1_0000_0000_0000_0000,
{
    reveal_with_fuel(p256, 9);
}

proof fn lemma_head(major: u8, n: nat, s: Seq<u8>, pos: int)
    requires
        major < 7,
        n <= u64::MAX,
        0 <= pos,
        pos + head(major, n).len() <= s.len(),
        s.subrange(pos, pos + head(major, n).len()) == head(major, n),
    ensures
        parse_head(s, pos) == Some((major as int, n, pos + head(major, n).len())),
        head(major, n).len() >= 1,
        s[pos] != BYTE_NULL && s[pos] != BYTE_TRUE && s[pos] != BYTE_FALSE,
{
    let h = head(major, n);
    lemma_p256();
    assert(s[pos] == h[0]) by {
        assert(s.subrange(pos, pos + h.len())[0] == s[pos]);
    }
    if n < 24 {
        assert(s[pos] as int / 32 == major as int);
        assert(s[pos] as int % 32 == n);
    } else {
        let k: int = if n < 0x100 { 1 } else if n < 0x1_0000 { 2 } else if n < 0x1_0000_0000 { 4 } else { 8 };
        let info: int = if k == 1 { 24 } else if k == 2 { 25 } else if k == 4 { 26 } else { 27 };
        assert(s[pos] as int == major * 32 + info);
        assert(s[pos] as int / 32 == major as int);
        assert(s[pos] as int % 32 == info);
        assert(arg_len(info) == k);
        if k > 1 {
            lemma_be(n, k as nat);
        }
        assert(h.len() == 1 + k);
        let arg = s.subrange(pos + 1, pos + 1 + k);
        assert(arg =~= h.subrange(1, 1 + k)) by {
            assert(arg =~= s.subrange(pos, pos + h.len()).subrange(1, 1 + k));
        }
        if k == 1 {
            assert(arg.drop_last() =~= Seq::<u8>::empty());
            assert(be_value(arg.drop_last()) == 0);
            assert(be_value(arg) == n);
        } else {
            assert(h.subrange(1, 1 + k) =~= be(n, k as nat));
        }
    }
}

/// Every encoding is at least one byte long.
proof fn lemma_encode_nonempty(v: Val)
    ensures
        encode_val(v).len() >= 1,
{
    match v {
        Val::Integer(i) => {},
        _ => {},
    }
}

proof fn lemma_text(t: Seq<char>, s: Seq<u8>, pos: int)
    requires
        vstd::utf8::encode_utf8(t).len() <= u64::MAX,
        0 <= pos,
        pos + encode_text(t).len() <= s.len(),
        s.subrange(pos, pos + encode_text(t).len()) == encode_text(t),
    ensures
        parse_text(s, pos) == Some((t, pos + encode_text(t).len())),
        s[pos] != BYTE_NULL && s[pos] != BYTE_TRUE && s[pos] != BYTE_FALSE,
{
    let u = vstd::utf8::encode_utf8(t);
    let h = head(MAJOR_TEXT, u.len());
    assert(s.subrange(pos, pos + h.len()) =~= h) by {
        assert(s.subrange(pos, pos + h.len()) =~= s.subrange(pos, pos + encode_text(t).len()).subrange(0, h.len() as int));
        assert(encode_text(t).subrange(0, h.len() as int) =~= h);
    }
    lemma_head(MAJOR_TEXT, u.len(), s, pos);
    let next = pos + h.len();
    assert(s.subrange(next, next + u.len()) =~= u) by {
        assert(s.subrange(next, next + u.len()) =~= s.subrange(pos, pos + encode_text(t).len()).subrange(h.len() as int, encode_text(t).len() as int));
        assert(encode_text(t).subrange(h.len() as int, encode_text(t).len() as int) =~= u);
    }
}

} // verus!

verus! {

proof fn lemma_split(s: Seq<u8>, pos: int, a: Seq<u8>, b: Seq<u8>)
    requires
        0 <= pos,
        pos + a.len() + b.len() <= s.len(),
        s.subrange(pos, pos + a.len() + b.len()) == a + b,
    ensures
        s.subrange(pos, pos + a.len()) == a,
        s.subrange(pos + a.len(), pos + a.len() + b.len()) == b,
{
    assert(s.subrange(pos, pos + a.len()) =~= (a + b).subrange(0, a.len() as int));
    assert(s.subrange(pos + a.len(), pos + a.len() + b.len()) =~= (a + b).subrange(
        a.len() as int,
        (a.len() + b.len()) as int,
    ));
}

/// Reading back the encoding of a canonical value, wherever it stands in a
/// byte string, gives the value and the position just after the encoding.
#[verifier::rlimit(30)]
pub proof fn lemma_parse_encode(v: Val, s: Seq<u8>, pos: int)
    requires
        canonical(v),
        0 <= pos,
        pos + encode_val(v).len() <= s.len(),
        s.subrange(pos, pos + encode_val(v).len()) == encode_val(v),
    ensures
        parse_val(s, pos) == Some((v, pos + encode_val(v).len())),
    decreases v,
{
    let e = encode_val(v);
    assert(s[pos] == e[0]) by {
        assert(s.subrange(pos, pos + e.len())[0] == s[pos]);
    }
    match v {
        Val::Null => {},
        Val::Bool(b) => {},
        Val::Integer(i) => {
            if i >= 0 {
                lemma_head(MAJOR_UINT, i as nat, s, pos);
            } else {
                lemma_head(MAJOR_NEGINT, (-1 - i) as nat, s, pos);
            }
        },
        Val::Text(t) => {
            lemma_text(t, s, pos);
            let u = vstd::utf8::encode_utf8(t);
            lemma_split(s, pos, head(MAJOR_TEXT, u.len()), u);
            lemma_head(MAJOR_TEXT, u.len(), s, pos);
        },
        Val::Bytes(b) => {
            let h = head(MAJOR_BYTES, b.len());
            lemma_split(s, pos, h, b);
            lemma_head(MAJOR_BYTES, b.len(), s, pos);
        },
        Val::List(l) => {
            let h = head(MAJOR_LIST, l.len());
            lemma_split(s, pos, h, encode_list(l));
            lemma_head(MAJOR_LIST, l.len(), s, pos);
            lemma_parse_encode_list(l, s, pos + h.len());
        },
        Val::Dict(d) => {
            let h = head(MAJOR_DICT, d.len());
            lemma_split(s, pos, h, encode_dict(d));
            lemma_head(MAJOR_DICT, d.len(), s, pos);
            lemma_parse_encode_dict(d, s, pos + h.len());
        },
        Val::Link(c) => {
            lemma_parse_encode_link(c, s, pos);
        },
    }
}

proof fn lemma_parse_encode_link(c: Seq<u8>, s: Seq<u8>, pos: int)
    requires
        canonical(Val::Link(c)),
        0 <= pos,
        pos + encode_val(Val::Link(c)).len() <= s.len(),
        s.subrange(pos, pos + encode_val(Val::Link(c)).len()) == encode_val(Val::Link(c)),
    ensures
        parse_val(s, pos) == Some((Val::Link(c), pos + encode_val(Val::Link(c)).len())),
{
    let e = encode_val(Val::Link(c));
    assert(s[pos] == e[0]) by {
        assert(s.subrange(pos, pos + e.len())[0] == s[pos]);
    }
    let t = seq![(MAJOR_TAG * 32 + 24) as u8, LINK_TAG];
    let h = head(MAJOR_BYTES, c.len() + 1);
    let z = seq![0u8];
    assert(e =~= t + (h + (z + c)));
    lemma_split(s, pos, t, h + (z + c));
    lemma_split(s, pos + 2, h, z + c);
    lemma_split(s, pos + 2 + h.len(), z, c);
    lemma_head(MAJOR_BYTES, c.len() + 1, s, pos + 2);
    let arg = s.subrange(pos + 1, pos + 2);
    assert(arg =~= seq![LINK_TAG]) by {
        assert(arg =~= s.subrange(pos, pos + 2).subrange(1, 2));
    }
    assert(arg.drop_last() =~= Seq::<u8>::empty());
    assert(be_value(arg.drop_last()) == 0);
    assert(be_value(arg) == LINK_TAG);
    assert(parse_head(s, pos) == Some((MAJOR_TAG as int, LINK_TAG as nat, pos + 2)));
    let start = pos + 2 + h.len();
    assert(s[start] == 0) by {
        assert(s.subrange(start, start + 1)[0] == s[start]);
    }
}

/// Reading back the encodings of the items of a canonical list.
pub proof fn lemma_parse_encode_list(l: Seq<Val>, s: Seq<u8>, pos: int)
    requires
        canonical_list(l),
        0 <= pos,
        pos + encode_list(l).len() <= s.len(),
        s.subrange(pos, pos + encode_list(l).len()) == encode_list(l),
    ensures
        parse_list(s, pos, l.len()) == Some((l, pos + encode_list(l).len())),
    decreases l,
{
    if l.len() > 0 {
        let rest = l.subrange(1, l.len() as int);
        let e0 = encode_val(l[0]);
        lemma_split(s, pos, e0, encode_list(rest));
        lemma_encode_nonempty(l[0]);
        lemma_parse_encode(l[0], s, pos);
        lemma_parse_encode_list(rest, s, pos + e0.len());
        assert(seq![l[0]] + rest =~= l);
    }
}

/// Reading back the encodings of the entries of a canonical map.
pub proof fn lemma_parse_encode_dict(d: Seq<(Seq<char>, Val)>, s: Seq<u8>, pos: int)
    requires
        canonical_dict(d),
        0 <= pos,
        pos + encode_dict(d).len() <= s.len(),
        s.subrange(pos, pos + encode_dict(d).len()) == encode_dict(d),
    ensures
        parse_dict(s, pos, d.len()) == Some((d, pos + encode_dict(d).len())),
    decreases d,
{
    if d.len() > 0 {
        let rest = d.subrange(1, d.len() as int);
        let k = encode_text(d[0].0);
        let e0 = encode_val(d[0].1);
        assert(encode_dict(d) =~= k + (e0 + encode_dict(rest)));
        lemma_split(s, pos, k, e0 + encode_dict(rest));
        lemma_split(s, pos + k.len(), e0, encode_dict(rest));
        lemma_text(d[0].0, s, pos);
        lemma_encode_nonempty(d[0].1);
        lemma_parse_encode(d[0].1, s, pos + k.len());
        lemma_parse_encode_dict(rest, s, pos + k.len() + e0.len());
        assert(seq![(d[0].0, d[0].1)] + rest =~= d);
    }
}

/// Decoding undoes encoding: `decode(encode(v)) = v` for every canonical value.
pub proof fn lemma_decode_encode(v: Val)
    requires
        canonical(v),
    ensures
        decode_val(encode_val(v)) == Some(v),
{
    let e = encode_val(v);
    assert(e.subrange(0, e.len() as int) =~= e);
    lemma_parse_encode(v, e, 0);
}

} // verus!

verus! {

/// Failure to decode.
#[derive(Debug, Clone, Copy, PartialEq, Eq)]
pub enum CodecError {
    /// The bytes are not the canonical encoding of exactly one value.
    MalformedEncoding,
}

/// Relies on `String::from_utf8`: `Ok` exactly when the bytes are valid
/// UTF-8, and then holding the characters they spell.
#[verifier::external_body]
fn utf8_to_string(b: Vec<u8>) -> (r: Option<String>)
    ensures
        r is Some <==> vstd::utf8::valid_utf8(b@),
        r matches Some(t) ==> t@ == vstd::utf8::decode_utf8(b@),
{
    String::from_utf8(b).ok()
}

proof fn lemma_be_value_bound(x: Seq<u8>)
    ensures
        be_value(x) < p256(x.len()),
    decreases x.len(),
{
    if x.len() > 0 {
        lemma_be_value_bound(x.drop_last());
        let a = be_value(x.drop_last());
        let b = x.last() as nat;
        let p = p256((x.len() - 1) as nat);
        assert(a * 256 + b < 256 * p) by (nonlinear_arith)
            requires
                a < p,
                b < 256,
        ;
    }
}

proof fn lemma_p256_mono(i: nat, j: nat)
    requires
        i <= j,
    ensures
        p256(i) <= p256(j),
    decreases j,
{
    if i < j {
        lemma_p256_mono(i, (j - 1) as nat);
    }
}

/// The number that the `k` bytes from `start` on stand for.
fn read_be(s: &[u8], start: usize, k: usize) -> (r: u64)
    requires
        start + k <= s@.len(),
        k <= 8,
    ensures
        r == be_value(s@.subrange(start as int, start + k)),
{
    let mut acc: u64 = 0;
    let mut i: usize = 0;
    let n = s.len();
    proof {
        lemma_p256();
        assert(s@.subrange(start as int, start as int) =~= Seq::<u8>::empty());
    }
    while i < k
        invariant
            start + k <= s@.len(),
            n == s@.len(),
            k <= 8,
            i <= k,
            acc == be_value(s@.subrange(start as int, start + i)),
            p256(8) == 0x1_0000_0000_0000_0000,
        decreases k - i,
    {
        let ghost x = s@.subrange(start as int, start + i);
        proof {
            lemma_be_value_bound(x);
            lemma_p256_mono((i + 1) as nat, 8);
            assert(p256((i + 1) as nat) == 256 * p256(i as nat));
            assert(acc * 256 + 255 <= u64::MAX) by (nonlinear_arith)
                requires
                    acc < p256(i as nat),
                    256 * p256(i as nat) <= 0x1_0000_0000_0000_0000,
            ;
            assert(acc * 256 + s@[start + i] < 256 * p256(i as nat)) by (nonlinear_arith)
                requires
                    acc < p256(i as nat),
                    s@[start + i] < 256,
            ;
        }
        let byte = s[start + i] as u64;
        let shifted = acc * 256;
        acc = shifted + byte;
        proof {
            let y = s@.subrange(start as int, start + i + 1);
            assert(y.drop_last() =~= x);
        }
        i = i + 1;
    }
    acc
}

/// Reads a head at `pos`.
fn read_head(s: &[u8], pos: usize) -> (r: Option<(u8, u64, usize)>)
    ensures
        match r {
            Some((major, n, next)) => parse_head(s@, pos as int) == Some((major as int, n as nat, next as int)),
            None => parse_head(s@, pos as int) is None,
        },
{
    if pos >= s.len() {
        return None;
    }
    let b = s[pos];
    let major = b / 32;
    let info = b % 32;
    if info < 24 {
        Some((major, info as u64, pos + 1))
    } else if info <= 27 {
        let k: usize = if info == 24 { 1 } else if info == 25 { 2 } else if info == 26 { 4 } else { 8 };
        if k <= s.len() - pos - 1 {
            let n = read_be(s, pos + 1, k);
            Some((major, n, pos + 1 + k))
        } else {
            None
        }
    } else {
        None
    }
}

/// The bytes from `start` to `end`.
fn copy_range(s: &[u8], start: usize, end: usize) -> (r: Vec<u8>)
    requires
        start <= end <= s@.len(),
    ensures
        r@ == s@.subrange(start as int, end as int),
{
    let mut out: Vec<u8> = Vec::new();
    let mut i: usize = start;
    while i < end
        invariant
            start <= i <= end <= s@.len(),
            out@ == s@.subrange(start as int, i as int),
        decreases end - i,
    {
        out.push(s[i]);
        assert(s@.subrange(start as int, i + 1) =~= s@.subrange(start as int, i as int).push(s@[i as int]));
        i = i + 1;
    }
    out
}

/// Whether `a` comes strictly before `b` in character order.
fn text_less(a: &str, b: &str) -> (r: bool)
    ensures
        r == chars_lt(a@, b@),
{
    let na = a.unicode_len();
    let nb = b.unicode_len();
    let mut i: usize = 0;
    assert(a@.subrange(0, a@.len() as int) =~= a@);
    assert(b@.subrange(0, b@.len() as int) =~= b@);
    while i < na && i < nb && a.get_char(i) == b.get_char(i)
        invariant
            na == a@.len(),
            nb == b@.len(),
            i <= na,
            i <= nb,
            chars_lt(a@, b@) == chars_lt(
                a@.subrange(i as int, a@.len() as int),
                b@.subrange(i as int, b@.len() as int),
            ),
        decreases na - i,
    {
        proof {
            let x = a@.subrange(i as int, a@.len() as int);
            let y = b@.subrange(i as int, b@.len() as int);
            assert(x.subrange(1, x.len() as int) =~= a@.subrange(i + 1, a@.len() as int));
            assert(y.subrange(1, y.len() as int) =~= b@.subrange(i + 1, b@.len() as int));
        }
        i = i + 1;
    }
    let ghost x = a@.subrange(i as int, a@.len() as int);
    let ghost y = b@.subrange(i as int, b@.len() as int);
    if i == na {
        i < nb
    } else if i == nb {
        false
    } else {
        assert(x[0] == a@[i as int] && y[0] == b@[i as int]);
        a.get_char(i) < b.get_char(i)
    }
}

/// Reads a text-string item at `pos`.
fn read_text(s: &[u8], pos: usize) -> (r: Option<(String, usize)>)
    ensures
        match r {
            Some((t, e)) => parse_text(s@, pos as int) == Some((t@, e as int)),
            None => parse_text(s@, pos as int) is None,
        },
{
    match read_head(s, pos) {
        Some((major, n, next)) => {
            if major == MAJOR_TEXT && next <= s.len() && n <= (s.len() - next) as u64 {
                let end = next + n as usize;
                let b = copy_range(s, next, end);
                match utf8_to_string(b) {
                    Some(t) => Some((t, end)),
                    None => None,
                }
            } else {
                None
            }
        },
        None => None,
    }
}

} // verus!

verus! {

/// Whether the keys of `d` stand in strictly increasing byte order.
fn keys_in_order(d: &Vec<(String, Value)>) -> (r: bool)
    ensures
        r == keys_ascending(view_entries(d@)),
{
    proof {
        lemma_view_entries(d@);
    }
    let ghost ents = view_entries(d@);
    let mut j: usize = 1;
    while j < d.len()
        invariant
            1 <= j,
            ents == view_entries(d@),
            ents.len() == d@.len(),
            forall|i: int| 0 <= i < d@.len() ==> #[trigger] ents[i] == (d@[i].0@, d@[i].1@),
            forall|i: int| 0 < i < j && i < ents.len() ==> chars_lt(#[trigger] ents[i - 1].0, ents[i].0),
        decreases d@.len() - j,
    {
        if !text_less(d[j - 1].0.as_str(), d[j].0.as_str()) {
            assert(ents[j - 1] == (d@[j - 1].0@, d@[j - 1].1@));
            assert(ents[j as int] == (d@[j as int].0@, d@[j as int].1@));
            assert(!chars_lt(ents[j - 1].0, ents[j as int].0));
            return false;
        }
        j = j + 1;
    }
    true
}

/// Reads one item at `pos`.
fn read_val(s: &[u8], pos: usize) -> (r: Option<(Value, usize)>)
    ensures
        match r {
            Some((v, e)) => parse_val(s@, pos as int) == Some((v@, e as int)),
            None => parse_val(s@, pos as int) is None,
        },
    decreases s@.len() - pos,
{
    if pos >= s.len() {
        return None;
    }
    let b = s[pos];
    if b == BYTE_NULL {
        return Some((Value::Null, pos + 1));
    } else if b == BYTE_TRUE {
        return Some((Value::Bool(true), pos + 1));
    } else if b == BYTE_FALSE {
        return Some((Value::Bool(false), pos + 1));
    }
    let (major, n, next) = match read_head(s, pos) {
        Some(h) => h,
        None => {
            return None;
        },
    };
    if major == MAJOR_UINT {
        if n <= i64::MAX as u64 {
            Some((Value::Integer(n as i64), next))
        } else {
            None
        }
    } else if major == MAJOR_NEGINT {
        if n <= i64::MAX as u64 {
            Some((Value::Integer(-1 - n as i64), next))
        } else {
            None
        }
    } else if major == MAJOR_BYTES {
        if next <= s.len() && n <= (s.len() - next) as u64 {
            let end = next + n as usize;
            Some((Value::Bytes(copy_range(s, next, end)), end))
        } else {
            None
        }
    } else if major == MAJOR_TEXT {
        match read_text(s, pos) {
            Some((t, e)) => Some((Value::Text(t), e)),
            None => None,
        }
    } else if major == MAJOR_LIST {
        let mut items: Vec<Value> = Vec::new();
        let mut p: usize = next;
        let mut i: u64 = 0;
        while i < n
            invariant
                pos < next <= p <= s@.len(),
                i <= n,
                major == MAJOR_LIST,
                s@[pos as int] != BYTE_NULL && s@[pos as int] != BYTE_TRUE && s@[pos as int] != BYTE_FALSE,
                parse_head(s@, pos as int) == Some((major as int, n as nat, next as int)),
                parse_list(s@, next as int, n as nat) == match parse_list(s@, p as int, (n - i) as nat) {
                    Some((rest, e)) => Some((view_items(items@) + rest, e)),
                    None => None::<(Seq<Val>, int)>,
                },
            decreases n - i,
        {
            if p >= s.len() {
                assert(parse_list(s@, p as int, (n - i) as nat) is None);
                return None;
            }
            match read_val(s, p) {
                Some((v, e)) => {
                    if !(p < e && e <= s.len()) {
                        assert(parse_list(s@, p as int, (n - i) as nat) is None);
                        return None;
                    }
                    proof {
                        lemma_view_items_push(items@, v);
                        let tail = parse_list(s@, e as int, (n - i - 1) as nat);
                        if let Some((rest, e2)) = tail {
                            assert(view_items(items@) + (seq![v@] + rest) =~= view_items(items@).push(v@) + rest);
                        }
                    }
                    items.push(v);
                    p = e;
                },
                None => {
                    assert(parse_list(s@, p as int, (n - i) as nat) is None);
                    return None;
                },
            }
            i = i + 1;
        }
        proof {
            lemma_view_items(items@);
            assert(view_items(items@) + Seq::<Val>::empty() =~= view_items(items@));
        }
        Some((Value::List(items), p))
    } else if major == MAJOR_DICT {
        let mut entries: Vec<(String, Value)> = Vec::new();
        let mut p: usize = next;
        let mut i: u64 = 0;
        while i < n
            invariant
                pos < next <= p <= s@.len(),
                i <= n,
                major == MAJOR_DICT,
                s@[pos as int] != BYTE_NULL && s@[pos as int] != BYTE_TRUE && s@[pos as int] != BYTE_FALSE,
                parse_head(s@, pos as int) == Some((major as int, n as nat, next as int)),
                parse_dict(s@, next as int, n as nat) == match parse_dict(s@, p as int, (n - i) as nat) {
                    Some((rest, e)) => Some((view_entries(entries@) + rest, e)),
                    None => None::<(Seq<(Seq<char>, Val)>, int)>,
                },
            decreases n - i,
        {
            if p >= s.len() {
                assert(parse_dict(s@, p as int, (n - i) as nat) is None);
                return None;
            }
            let (k, ke) = match read_text(s, p) {
                Some(x) => x,
                None => {
                    assert(parse_dict(s@, p as int, (n - i) as nat) is None);
                    return None;
                },
            };
            match read_val(s, ke) {
                Some((v, e)) => {
                    if !(p < e && e <= s.len()) {
                        assert(parse_dict(s@, p as int, (n - i) as nat) is None);
                        return None;
                    }
                    proof {
                        lemma_view_entries_push(entries@, (k, v));
                        let tail = parse_dict(s@, e as int, (n - i - 1) as nat);
                        if let Some((rest, e2)) = tail {
                            assert(view_entries(entries@) + (seq![(k@, v@)] + rest) =~= view_entries(entries@).push((k@, v@)) + rest);
                        }
                    }
                    entries.push((k, v));
                    p = e;
                },
                None => {
                    assert(parse_dict(s@, p as int, (n - i) as nat) is None);
                    return None;
                },
            }
            i = i + 1;
        }
        proof {
            assert(view_entries(entries@) + Seq::<(Seq<char>, Val)>::empty() =~= view_entries(entries@));
        }
        if keys_in_order(&entries) {
            Some((Value::Dict(entries), p))
        } else {
            None
        }
    } else if major == MAJOR_TAG && n == LINK_TAG as u64 {
        match read_head(s, next) {
            Some((m2, len, start)) => {
                if m2 == MAJOR_BYTES && 1 <= len && len <= MAX_CID_LEN as u64 + 1 && start <= s.len()
                    && len <= (s.len() - start) as u64 {
                    let end = start + len as usize;
                    if s[start] == 0 {
                        let bytes = copy_range(s, start + 1, end);
                        Some((Value::Link(Cid::from_short_bytes(bytes)), end))
                    } else {
                        None
                    }
                } else {
                    None
                }
            },
            None => None,
        }
    } else {
        None
    }
}

/// Decodes a value from its canonical encoding.
pub fn decode(s: &[u8]) -> (r: Result<Value, CodecError>)
    ensures
        match r {
            Ok(v) => decode_val(s@) == Some(v@),
            Err(_) => decode_val(s@) is None,
        },
{
    match read_val(s, 0) {
        Some((v, e)) => if e == s.len() {
            Ok(v)
        } else {
            Err(CodecError::MalformedEncoding)
        },
        None => Err(CodecError::MalformedEncoding),
    }
}

} // verus!

verus! {

/// UTF-8 takes at most four bytes per character.
pub proof fn lemma_utf8_len(s: Seq<char>)
    ensures
        vstd::utf8::encode_utf8(s).len() <= 4 * s.len(),
    decreases s.len(),
{
    if s.len() > 0 {
        lemma_utf8_len(s.drop_first());
    }
}

/// A list whose items are each canonical is canonical.
pub proof fn lemma_canonical_list(l: Seq<Val>)
    requires
        forall|i: int| 0 <= i < l.len() ==> canonical(#[trigger] l[i]),
    ensures
        canonical_list(l),
    decreases l.len(),
{
    if l.len() > 0 {
        let rest = l.subrange(1, l.len() as int);
        assert forall|i: int| 0 <= i < rest.len() implies canonical(#[trigger] rest[i]) by {
            assert(rest[i] == l[i + 1]);
        }
        lemma_canonical_list(rest);
    }
}

/// A map whose keys fit a head and whose values are each canonical has
/// canonical entries.
pub proof fn lemma_canonical_dict(d: Seq<(Seq<char>, Val)>)
    requires
        forall|i: int|
            0 <= i < d.len() ==> vstd::utf8::encode_utf8((#[trigger] d[i]).0).len() <= u64::MAX
                && canonical(d[i].1),
    ensures
        canonical_dict(d),
    decreases d.len(),
{
    if d.len() > 0 {
        let rest = d.subrange(1, d.len() as int);
        assert forall|i: int| 0 <= i < rest.len() implies vstd::utf8::encode_utf8(
            (#[trigger] rest[i]).0,
        ).len() <= u64::MAX && canonical(rest[i].1) by {
            assert(rest[i] == d[i + 1]);
        }
        lemma_canonical_dict(rest);
    }
}

} // verus!

verus! {

proof fn lemma_canonical_list_items(l: Seq<Val>)
    requires
        canonical_list(l),
    ensures
        forall|i: int| 0 <= i < l.len() ==> canonical(#[trigger] l[i]),
    decreases l.len(),
{
    if l.len() > 0 {
        let rest = l.subrange(1, l.len() as int);
        lemma_canonical_list_items(rest);
        assert forall|i: int| 0 <= i < l.len() implies canonical(#[trigger] l[i]) by {
            if i > 0 {
                assert(l[i] == rest[i - 1]);
            }
        }
    }
}

proof fn lemma_canonical_dict_items(d: Seq<(Seq<char>, Val)>)
    requires
        canonical_dict(d),
    ensures
        forall|i: int| 0 <= i < d.len() ==> canonical((#[trigger] d[i]).1),
    decreases d.len(),
{
    if d.len() > 0 {
        let rest = d.subrange(1, d.len() as int);
        lemma_canonical_dict_items(rest);
        assert forall|i: int| 0 <= i < d.len() implies canonical((#[trigger] d[i]).1) by {
            if i > 0 {
                assert(d[i] == rest[i - 1]);
            }
        }
    }
}

/// Whether a value is canonical: its maps have keys in strictly increasing
/// order, throughout, so that it is its own normal form (see
/// [`normalize`]).
pub fn is_canonical(v: &Value) -> (r: bool)
    ensures
        r == canonical(v@),
    decreases v,
{
    match v {
        Value::Null => true,
        Value::Bool(_) => true,
        Value::Integer(_) => true,
        Value::Text(s) => {
            let b = s.as_str().as_bytes();
            let _n = b.len();
            true
        },
        Value::Bytes(b) => {
            let _ = b.len();
            true
        },
        Value::Link(c) => {
            let _ = c.len();
            true
        },
        Value::List(l) => {
            proof {
                lemma_view_items(l@);
            }
            let ghost items = view_items(l@);
            let mut i: usize = 0;
            while i < l.len()
                invariant
                    *v == Value::List(*l),
                    items == view_items(l@),
                    items.len() == l@.len(),
                    forall|j: int| 0 <= j < l@.len() ==> #[trigger] items[j] == l@[j]@,
                    i <= l@.len(),
                    forall|j: int| 0 <= j < i ==> canonical(#[trigger] items[j]),
                decreases l@.len() - i,
            {
                proof {
                    assert(decreases_to!(*v => (*v)->List_0));
                }
                if !is_canonical(&l[i]) {
                    proof {
                        if canonical_list(items) {
                            lemma_canonical_list_items(items);
                            assert(canonical(items[i as int]));
                        }
                    }
                    return false;
                }
                i = i + 1;
            }
            proof {
                lemma_canonical_list(items);
            }
            true
        },
        Value::Dict(d) => {
            proof {
                lemma_view_entries(d@);
            }
            let ghost ents = view_entries(d@);
            if !keys_in_order(d) {
                return false;
            }
            let mut i: usize = 0;
            while i < d.len()
                invariant
                    *v == Value::Dict(*d),
                    ents == view_entries(d@),
                    ents.len() == d@.len(),
                    forall|j: int| 0 <= j < d@.len() ==> #[trigger] ents[j] == (d@[j].0@, d@[j].1@),
                    i <= d@.len(),
                    forall|j: int|
                        0 <= j < i ==> vstd::utf8::encode_utf8((#[trigger] ents[j]).0).len() <= u64::MAX && canonical(ents[j].1),
                decreases d@.len() - i,
            {
                proof {
                    assert(decreases_to!(*v => (*v)->Dict_0));
                }
                let kb = d[i].0.as_str().as_bytes();
                let _n = kb.len();
                if !is_canonical(&d[i].1) {
                    proof {
                        if canonical_dict(ents) {
                            lemma_canonical_dict_items(ents);
                            assert(canonical(ents[i as int].1));
                        }
                    }
                    return false;
                }
                i = i + 1;
            }
            proof {
                lemma_canonical_dict(ents);
            }
            true
        },
    }
}

} // verus!

verus! {

proof fn lemma_chars_lt_irreflexive(a: Seq<char>)
    ensures
        !chars_lt(a, a),
    decreases a.len(),
{
    if a.len() > 0 {
        lemma_chars_lt_irreflexive(a.subrange(1, a.len() as int));
    }
}

proof fn lemma_chars_lt_asymmetric(a: Seq<char>, b: Seq<char>)
    requires
        chars_lt(a, b),
    ensures
        !chars_lt(b, a),
    decreases a.len(),
{
    if a.len() > 0 && b.len() > 0 && a[0] == b[0] {
        lemma_chars_lt_asymmetric(a.subrange(1, a.len() as int), b.subrange(1, b.len() as int));
    }
}

proof fn lemma_chars_lt_total(a: Seq<char>, b: Seq<char>)
    requires
        a != b,
    ensures
        chars_lt(a, b) || chars_lt(b, a),
    decreases a.len(),
{
    if a.len() > 0 && b.len() > 0 && a[0] == b[0] {
        let a1 = a.subrange(1, a.len() as int);
        let b1 = b.subrange(1, b.len() as int);
        if a1 == b1 {
            assert(a =~= seq![a[0]] + a1);
            assert(b =~= seq![b[0]] + b1);
        }
        lemma_chars_lt_total(a1, b1);
    } else if a.len() == 0 && b.len() == 0 {
        assert(a =~= b);
    }
}

proof fn lemma_chars_lt_transitive(a: Seq<char>, b: Seq<char>, c: Seq<char>)
    requires
        chars_lt(a, b),
        chars_lt(b, c),
    ensures
        chars_lt(a, c),
    decreases a.len(),
{
    if a.len() > 0 && b.len() > 0 && c.len() > 0 && a[0] == b[0] && b[0] == c[0] {
        lemma_chars_lt_transitive(
            a.subrange(1, a.len() as int),
            b.subrange(1, b.len() as int),
            c.subrange(1, c.len() as int),
        );
    }
}

/// `e` put into entries in key order, in place of an entry with its key.
pub open spec fn ins(s: Seq<(Seq<char>, Val)>, e: (Seq<char>, Val)) -> Seq<(Seq<char>, Val)>
    decreases s.len(),
{
    if s.len() == 0 {
        seq![e]
    } else if chars_lt(e.0, s[0].0) {
        seq![e] + s
    } else if e.0 == s[0].0 {
        seq![e] + s.subrange(1, s.len() as int)
    } else {
        seq![s[0]] + ins(s.subrange(1, s.len() as int), e)
    }
}

/// Entries in key order, a later entry for a key replacing an earlier one.
pub open spec fn sort_entries(d: Seq<(Seq<char>, Val)>) -> Seq<(Seq<char>, Val)>
    decreases d.len(),
{
    if d.len() == 0 {
        Seq::empty()
    } else {
        ins(sort_entries(d.drop_last()), d.last())
    }
}

/// A value with every map in key order: the value that its canonical
/// encoding stands for.
pub open spec fn norm(v: Val) -> Val
    decreases v,
{
    match v {
        Val::List(l) => Val::List(norm_list(l)),
        Val::Dict(d) => Val::Dict(sort_entries(norm_dict(d))),
        _ => v,
    }
}

/// Each item normalised.
pub open spec fn norm_list(l: Seq<Val>) -> Seq<Val>
    decreases l,
{
    if l.len() == 0 {
        Seq::empty()
    } else {
        seq![norm(l[0])] + norm_list(l.subrange(1, l.len() as int))
    }
}

/// Each entry's value normalised.
pub open spec fn norm_dict(d: Seq<(Seq<char>, Val)>) -> Seq<(Seq<char>, Val)>
    decreases d,
{
    if d.len() == 0 {
        Seq::empty()
    } else {
        seq![(d[0].0, norm(d[0].1))] + norm_dict(d.subrange(1, d.len() as int))
    }
}

/// The canonical encoding of a value: that of its normal form.
pub open spec fn canonical_encoding(v: Val) -> Seq<u8> {
    encode_val(norm(v))
}

/// Normalising a list normalises each item.
pub proof fn lemma_norm_list(l: Seq<Val>)
    ensures
        norm_list(l).len() == l.len(),
        forall|i: int| 0 <= i < l.len() ==> #[trigger] norm_list(l)[i] == norm(l[i]),
    decreases l.len(),
{
    if l.len() > 0 {
        let rest = l.subrange(1, l.len() as int);
        lemma_norm_list(rest);
        assert forall|i: int| 0 <= i < l.len() implies #[trigger] norm_list(l)[i] == norm(l[i]) by {
            if i > 0 {
                assert(rest[i - 1] == l[i]);
            }
        }
    }
}

/// Normalising entries normalises each value.
pub proof fn lemma_norm_dict(d: Seq<(Seq<char>, Val)>)
    ensures
        norm_dict(d).len() == d.len(),
        forall|i: int| 0 <= i < d.len() ==> #[trigger] norm_dict(d)[i] == (d[i].0, norm(d[i].1)),
    decreases d.len(),
{
    if d.len() > 0 {
        let rest = d.subrange(1, d.len() as int);
        lemma_norm_dict(rest);
        assert forall|i: int| 0 <= i < d.len() implies #[trigger] norm_dict(d)[i] == (d[i].0, norm(d[i].1)) by {
            if i > 0 {
                assert(rest[i - 1] == d[i]);
            }
        }
    }
}

/// What `ins` gives, seen from the place where `e` goes: after every entry
/// whose key is smaller.
proof fn lemma_ins_at(s: Seq<(Seq<char>, Val)>, e: (Seq<char>, Val), p: int)
    requires
        0 <= p <= s.len(),
        forall|j: int| 0 <= j < p ==> chars_lt(#[trigger] s[j].0, e.0),
        p < s.len() ==> !chars_lt(s[p].0, e.0),
    ensures
        ins(s, e) == if p < s.len() && s[p].0 == e.0 {
            s.subrange(0, p) + seq![e] + s.subrange(p + 1, s.len() as int)
        } else {
            s.subrange(0, p) + seq![e] + s.subrange(p, s.len() as int)
        },
    decreases p,
{
    if p == 0 {
        if s.len() > 0 && s[0].0 != e.0 {
            lemma_chars_lt_total(e.0, s[0].0);
        }
        if s.len() == 0 {
            assert(ins(s, e) =~= s.subrange(0, 0) + seq![e] + s.subrange(0, 0));
        } else if s[0].0 == e.0 {
            lemma_chars_lt_irreflexive(e.0);
            assert(ins(s, e) =~= s.subrange(0, 0) + seq![e] + s.subrange(1, s.len() as int));
        } else {
            assert(ins(s, e) =~= s.subrange(0, 0) + seq![e] + s.subrange(0, s.len() as int));
        }
    } else {
        let rest = s.subrange(1, s.len() as int);
        lemma_chars_lt_asymmetric(s[0].0, e.0);
        lemma_chars_lt_irreflexive(e.0);
        assert(s[0].0 != e.0);
        assert forall|j: int| 0 <= j < p - 1 implies chars_lt(#[trigger] rest[j].0, e.0) by {
            assert(rest[j] == s[j + 1]);
        }
        if p - 1 < rest.len() {
            assert(rest[p - 1] == s[p]);
        }
        lemma_ins_at(rest, e, p - 1);
        if p < s.len() && s[p].0 == e.0 {
            assert(ins(s, e) =~= s.subrange(0, p) + seq![e] + s.subrange(p + 1, s.len() as int));
        } else {
            assert(ins(s, e) =~= s.subrange(0, p) + seq![e] + s.subrange(p, s.len() as int));
        }
    }
}

/// Every entry of `ins(s, e)` is `e` or an entry of `s`.
proof fn lemma_ins_members(s: Seq<(Seq<char>, Val)>, e: (Seq<char>, Val))
    ensures
        ins(s, e).len() <= s.len() + 1,
        forall|i: int| 0 <= i < ins(s, e).len() ==> #[trigger] ins(s, e)[i] == e || s.contains(ins(s, e)[i]),
    decreases s.len(),
{
    if s.len() > 0 {
        let rest = s.subrange(1, s.len() as int);
        lemma_ins_members(rest, e);
        assert forall|i: int| 0 <= i < ins(s, e).len() implies #[trigger] ins(s, e)[i] == e || s.contains(ins(s, e)[i]) by {
            let x = ins(s, e)[i];
            if x != e {
                if chars_lt(e.0, s[0].0) {
                    assert(s[i - 1] == x);
                } else if e.0 == s[0].0 {
                    assert(s[i] == x);
                } else if i == 0 {
                    assert(s[0] == x);
                } else {
                    assert(ins(rest, e)[i - 1] == x);
                    let k = choose|k: int| 0 <= k < rest.len() && rest[k] == x;
                    assert(s[k + 1] == x);
                }
            }
        }
    }
}

/// `ins` keeps keys strictly increasing.
proof fn lemma_ins_ascending(s: Seq<(Seq<char>, Val)>, e: (Seq<char>, Val))
    requires
        keys_ascending(s),
    ensures
        keys_ascending(ins(s, e)),
        ins(s, e).len() > 0,
        s.len() > 0 ==> ins(s, e)[0] == e || ins(s, e)[0] == s[0],
    decreases s.len(),
{
    if s.len() > 0 {
        let rest = s.subrange(1, s.len() as int);
        let r = ins(s, e);
        if chars_lt(e.0, s[0].0) {
            assert forall|i: int| 0 < i < r.len() implies chars_lt(#[trigger] r[i - 1].0, r[i].0) by {
                if i > 1 {
                    assert(r[i - 1] == s[i - 2] && r[i] == s[i - 1]);
                }
            }
        } else if e.0 == s[0].0 {
            assert forall|i: int| 0 < i < r.len() implies chars_lt(#[trigger] r[i - 1].0, r[i].0) by {
                assert(r[i] == s[i]);
                if i > 1 {
                    assert(r[i - 1] == s[i - 1]);
                } else {
                    assert(chars_lt(s[0].0, s[1].0));
                }
            }
        } else {
            assert(keys_ascending(rest)) by {
                assert forall|i: int| 0 < i < rest.len() implies chars_lt(#[trigger] rest[i - 1].0, rest[i].0) by {
                    assert(rest[i - 1] == s[i] && rest[i] == s[i + 1]);
                    let k = i + 1;
                    assert(chars_lt(s[k - 1].0, s[k].0));
                }
            }
            lemma_ins_ascending(rest, e);
            lemma_chars_lt_total(e.0, s[0].0);
            let t = ins(rest, e);
            assert forall|i: int| 0 < i < r.len() implies chars_lt(#[trigger] r[i - 1].0, r[i].0) by {
                if i == 1 {
                    assert(r[1] == t[0]);
                    if rest.len() > 0 && t[0] == rest[0] {
                        assert(chars_lt(s[0].0, s[1].0));
                    }
                } else {
                    assert(r[i - 1] == t[i - 2] && r[i] == t[i - 1]);
                }
            }
        }
    }
}

proof fn lemma_sort_ascending(d: Seq<(Seq<char>, Val)>)
    ensures
        keys_ascending(sort_entries(d)),
        sort_entries(d).len() <= d.len(),
        forall|i: int| 0 <= i < sort_entries(d).len() ==> d.contains(#[trigger] sort_entries(d)[i]),
    decreases d.len(),
{
    if d.len() > 0 {
        let p = d.drop_last();
        lemma_sort_ascending(p);
        lemma_ins_ascending(sort_entries(p), d.last());
        lemma_ins_members(sort_entries(p), d.last());
        assert forall|i: int| 0 <= i < sort_entries(d).len() implies d.contains(#[trigger] sort_entries(d)[i]) by {
            let x = sort_entries(d)[i];
            if x == d.last() {
                assert(d[d.len() - 1] == x);
            } else {
                let k = choose|k: int| 0 <= k < sort_entries(p).len() && sort_entries(p)[k] == x;
                let m = choose|m: int| 0 <= m < p.len() && p[m] == x;
                assert(d[m] == x);
            }
        }
    }
}

proof fn lemma_ins_append(s: Seq<(Seq<char>, Val)>, e: (Seq<char>, Val))
    requires
        forall|j: int| 0 <= j < s.len() ==> chars_lt(#[trigger] s[j].0, e.0),
    ensures
        ins(s, e) == s.push(e),
{
    lemma_ins_at(s, e, s.len() as int);
    assert(s.subrange(0, s.len() as int) + seq![e] + s.subrange(s.len() as int, s.len() as int) =~= s.push(e));
}

/// Sorting entries already in strictly increasing key order changes nothing.
pub proof fn lemma_sort_sorted(d: Seq<(Seq<char>, Val)>)
    requires
        keys_ascending(d),
    ensures
        sort_entries(d) == d,
    decreases d.len(),
{
    if d.len() > 0 {
        let p = d.drop_last();
        assert(keys_ascending(p)) by {
            assert forall|i: int| 0 < i < p.len() implies chars_lt(#[trigger] p[i - 1].0, p[i].0) by {
                assert(p[i - 1] == d[i - 1] && p[i] == d[i]);
            }
        }
        lemma_sort_sorted(p);
        assert forall|j: int| 0 <= j < p.len() implies chars_lt(#[trigger] p[j].0, d.last().0) by {
            lemma_all_below_last(d, j);
        }
        lemma_ins_append(p, d.last());
        assert(p.push(d.last()) =~= d);
    }
}

proof fn lemma_all_below_last(d: Seq<(Seq<char>, Val)>, j: int)
    requires
        keys_ascending(d),
        0 <= j < d.len() - 1,
    ensures
        chars_lt(d[j].0, d.last().0),
    decreases d.len() - 1 - j,
{
    let k = j + 1;
    assert(chars_lt(d[k - 1].0, d[k].0));
    if j + 1 < d.len() - 1 {
        lemma_all_below_last(d, j + 1);
        lemma_chars_lt_transitive(d[j].0, d[j + 1].0, d.last().0);
    }
}

/// A canonical value is its own normal form.
pub proof fn lemma_norm_canonical(v: Val)
    requires
        canonical(v),
    ensures
        norm(v) == v,
    decreases v,
{
    match v {
        Val::List(l) => {
            lemma_canonical_list_items(l);
            lemma_norm_list(l);
            assert forall|i: int| 0 <= i < l.len() implies #[trigger] norm_list(l)[i] == l[i] by {
                lemma_norm_canonical(l[i]);
            }
            assert(norm_list(l) =~= l);
        },
        Val::Dict(d) => {
            lemma_canonical_dict_items(d);
            lemma_norm_dict(d);
            assert forall|i: int| 0 <= i < d.len() implies #[trigger] norm_dict(d)[i] == d[i] by {
                lemma_norm_canonical(d[i].1);
            }
            assert(norm_dict(d) =~= d);
            lemma_sort_sorted(d);
        },
        _ => {},
    }
}

} // verus!

verus! {

/// Puts `e` into entries kept in key order, in place of an entry with its
/// key.
fn insert_entry(out: &mut Vec<(String, Value)>, e: (String, Value))
    ensures
        view_entries(final(out)@) == ins(view_entries(old(out)@), (e.0@, e.1@)),
{
    proof {
        lemma_view_entries(out@);
    }
    let ghost s = view_entries(out@);
    let ghost ev = (e.0@, e.1@);
    let mut p: usize = 0;
    while p < out.len() && text_less(out[p].0.as_str(), e.0.as_str())
        invariant
            p <= out@.len(),
            s == view_entries(out@),
            s.len() == out@.len(),
            ev == (e.0@, e.1@),
            forall|j: int| 0 <= j < out@.len() ==> #[trigger] s[j] == (out@[j].0@, out@[j].1@),
            forall|j: int| 0 <= j < p ==> chars_lt(#[trigger] s[j].0, ev.0),
        decreases out@.len() - p,
    {
        p = p + 1;
    }
    proof {
        lemma_ins_at(s, ev, p as int);
    }
    if p < out.len() && out[p].0 == e.0 {
        out.set(p, e);
        proof {
            lemma_view_entries(out@);
            assert(view_entries(out@) =~= s.subrange(0, p as int) + seq![ev] + s.subrange(p + 1, s.len() as int));
        }
    } else {
        out.insert(p, e);
        proof {
            lemma_view_entries(out@);
            assert(view_entries(out@) =~= s.subrange(0, p as int) + seq![ev] + s.subrange(p as int, s.len() as int));
        }
    }
}

/// The normal form of `v`: every map in key order, a later entry for a key
/// replacing an earlier one. It is canonical.
pub fn normalize(v: &Value) -> (r: Value)
    ensures
        r@ == norm(v@),
        canonical(r@),
    decreases v,
{
    match v {
        Value::Null => Value::Null,
        Value::Bool(b) => Value::Bool(*b),
        Value::Integer(i) => Value::Integer(*i),
        Value::Text(s) => {
            let _n = s.as_str().as_bytes().len();
            Value::Text(s.clone())
        },
        Value::Bytes(b) => Value::Bytes(b.clone()),
        Value::Link(c) => {
            let _n = c.len();
            Value::Link(c.clone())
        },
        Value::List(l) => {
            proof {
                lemma_view_items(l@);
            }
            let ghost items = view_items(l@);
            let mut out: Vec<Value> = Vec::new();
            let mut i: usize = 0;
            while i < l.len()
                invariant
                    *v == Value::List(*l),
                    items == view_items(l@),
                    items.len() == l@.len(),
                    forall|j: int| 0 <= j < l@.len() ==> #[trigger] items[j] == l@[j]@,
                    i <= l@.len(),
                    out@.len() == i,
                    forall|j: int| 0 <= j < i ==> (#[trigger] out@[j])@ == norm(items[j]) && canonical(out@[j]@),
                decreases l@.len() - i,
            {
                proof {
                    assert(decreases_to!(*v => (*v)->List_0));
                }
                let x = normalize(&l[i]);
                out.push(x);
                i = i + 1;
            }
            proof {
                lemma_view_items(out@);
                lemma_norm_list(items);
                assert(view_items(out@) =~= norm_list(items));
                let oi = view_items(out@);
                assert forall|j: int| 0 <= j < oi.len() implies canonical(#[trigger] oi[j]) by {
                    assert(oi[j] == out@[j]@);
                }
                lemma_canonical_list(oi);
            }
            let _n = out.len();
            Value::List(out)
        },
        Value::Dict(d) => {
            proof {
                lemma_view_entries(d@);
            }
            let ghost ents = view_entries(d@);
            let mut nd: Vec<(String, Value)> = Vec::new();
            let mut i: usize = 0;
            while i < d.len()
                invariant
                    *v == Value::Dict(*d),
                    ents == view_entries(d@),
                    ents.len() == d@.len(),
                    forall|j: int| 0 <= j < d@.len() ==> #[trigger] ents[j] == (d@[j].0@, d@[j].1@),
                    i <= d@.len(),
                    nd@.len() == i,
                    forall|j: int|
                        0 <= j < i ==> (#[trigger] nd@[j]).0@ == ents[j].0 && nd@[j].1@ == norm(ents[j].1) && canonical(
                            nd@[j].1@,
                        ) && vstd::utf8::encode_utf8(nd@[j].0@).len() <= u64::MAX,
                decreases d@.len() - i,
            {
                proof {
                    assert(decreases_to!(*v => (*v)->Dict_0));
                }
                let k = d[i].0.clone();
                let _n = k.as_str().as_bytes().len();
                let x = normalize(&d[i].1);
                nd.push((k, x));
                i = i + 1;
            }
            proof {
                lemma_view_entries(nd@);
                lemma_norm_dict(ents);
                assert(view_entries(nd@) =~= norm_dict(ents));
            }
            let ghost a = view_entries(nd@);
            let ghost all = nd@;
            let n = nd.len();
            let mut out: Vec<(String, Value)> = Vec::new();
            let mut k: usize = 0;
            proof {
                lemma_view_entries(out@);
                assert(view_entries(out@) =~= sort_entries(a.subrange(0, 0)));
            }
            while nd.len() > 0
                invariant
                    n == all.len(),
                    a == view_entries(all),
                    a.len() == n,
                    forall|j: int| 0 <= j < n ==> #[trigger] a[j] == (all[j].0@, all[j].1@),
                    k + nd@.len() == n,
                    nd@ == all.subrange(k as int, n as int),
                    view_entries(out@) == sort_entries(a.subrange(0, k as int)),
                decreases nd@.len(),
            {
                let e = nd.remove(0);
                assert(e == all[k as int]);
                insert_entry(&mut out, e);
                proof {
                    assert(a.subrange(0, k + 1).drop_last() =~= a.subrange(0, k as int));
                    assert(a.subrange(0, k + 1).last() == a[k as int]);
                    assert(nd@ =~= all.subrange(k + 1, n as int));
                }
                k = k + 1;
            }
            proof {
                assert(a.subrange(0, n as int) =~= a);
                let sorted = sort_entries(a);
                lemma_sort_ascending(a);
                assert forall|j: int| 0 <= j < sorted.len() implies vstd::utf8::encode_utf8((#[trigger] sorted[j]).0).len()
                    <= u64::MAX && canonical(sorted[j].1) by {
                    let m = choose|m: int| 0 <= m < a.len() && a[m] == sorted[j];
                    assert(a[m] == (all[m].0@, all[m].1@));
                }
                lemma_canonical_dict(sorted);
            }
            let _n = out.len();
            Value::Dict(out)
        },
    }
}

} // verus!

verus! {

/// Integers within 64 bits and lengths that a head can carry, throughout
/// the value: what every value held at run time satisfies, whatever the
/// order of its maps.
pub open spec fn bounded(v: Val) -> bool
    decreases v,
{
    match v {
        Val::Integer(i) => i64::MIN <= i <= i64::MAX,
        Val::Text(t) => vstd::utf8::encode_utf8(t).len() <= u64::MAX,
        Val::Bytes(b) => b.len() <= u64::MAX,
        Val::List(l) => l.len() <= u64::MAX && bounded_list(l),
        Val::Dict(d) => d.len() <= u64::MAX && bounded_dict(d),
        Val::Link(c) => c.len() <= MAX_CID_LEN,
        _ => true,
    }
}

/// Every item is bounded.
pub open spec fn bounded_list(l: Seq<Val>) -> bool
    decreases l,
{
    l.len() == 0 || (bounded(l[0]) && bounded_list(l.subrange(1, l.len() as int)))
}

/// Every key fits a head and every value is bounded.
pub open spec fn bounded_dict(d: Seq<(Seq<char>, Val)>) -> bool
    decreases d,
{
    d.len() == 0 || (vstd::utf8::encode_utf8(d[0].0).len() <= u64::MAX && bounded(d[0].1) && bounded_dict(
        d.subrange(1, d.len() as int),
    ))
}

proof fn lemma_bounded_list_items(l: Seq<Val>)
    requires
        bounded_list(l),
    ensures
        forall|i: int| 0 <= i < l.len() ==> bounded(#[trigger] l[i]),
    decreases l.len(),
{
    if l.len() > 0 {
        let rest = l.subrange(1, l.len() as int);
        lemma_bounded_list_items(rest);
        assert forall|i: int| 0 <= i < l.len() implies bounded(#[trigger] l[i]) by {
            if i > 0 {
                assert(l[i] == rest[i - 1]);
            }
        }
    }
}

proof fn lemma_bounded_dict_items(d: Seq<(Seq<char>, Val)>)
    requires
        bounded_dict(d),
    ensures
        forall|i: int| 0 <= i < d.len() ==> bounded((#[trigger] d[i]).1) && vstd::utf8::encode_utf8(d[i].0).len() <= u64::MAX,
    decreases d.len(),
{
    if d.len() > 0 {
        let rest = d.subrange(1, d.len() as int);
        lemma_bounded_dict_items(rest);
        assert forall|i: int| 0 <= i < d.len() implies bounded((#[trigger] d[i]).1) && vstd::utf8::encode_utf8(d[i].0).len()
            <= u64::MAX by {
            if i > 0 {
                assert(d[i] == rest[i - 1]);
            }
        }
    }
}

/// The normal form of a bounded value is canonical, so that decoding its
/// canonical encoding gives it back: `decode(encode(v)) = norm(v)`.
pub proof fn lemma_bounded_norm(v: Val)
    requires
        bounded(v),
    ensures
        canonical(norm(v)),
        decode_val(canonical_encoding(v)) == Some(norm(v)),
    decreases v,
{
    match v {
        Val::List(l) => {
            lemma_bounded_list_items(l);
            lemma_norm_list(l);
            let n = norm_list(l);
            assert forall|i: int| 0 <= i < n.len() implies canonical(#[trigger] n[i]) by {
                lemma_bounded_norm(l[i]);
            }
            lemma_canonical_list(n);
        },
        Val::Dict(d) => {
            lemma_bounded_dict_items(d);
            lemma_norm_dict(d);
            let nd = norm_dict(d);
            let sorted = sort_entries(nd);
            lemma_sort_ascending(nd);
            assert forall|j: int| 0 <= j < sorted.len() implies vstd::utf8::encode_utf8((#[trigger] sorted[j]).0).len()
                <= u64::MAX && canonical(sorted[j].1) by {
                let m = choose|m: int| 0 <= m < nd.len() && nd[m] == sorted[j];
                lemma_bounded_norm(d[m].1);
            }
            lemma_canonical_dict(sorted);
        },
        _ => {},
    }
    lemma_decode_encode(norm(v));
}

} // verus!
