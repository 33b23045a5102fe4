use crate::error::BittorrentError;
use vstd::prelude::*;
use vstd::slice::{slice_subrange, slice_to_vec};

verus! {

/// The mathematical model of a bencode value.
pub enum Bencode {
    Int(int),
    Bytes(Seq<u8>),
    List(Seq<Bencode>),
    Dict(Seq<(Seq<u8>, Bencode)>),
}

/// A bencode value. Dictionary entries keep the order in which they were
/// decoded or built, and their keys are byte strings.
#[derive(Debug, PartialEq, Eq)]
pub enum BencodeValue {
    Integer(i64),
    ByteString(Vec<u8>),
    List(Vec<BencodeValue>),
    Dictionary(Vec<(Vec<u8>, BencodeValue)>),
}

impl View for BencodeValue {
    type V = Bencode;

    open spec fn view(&self) -> Bencode {
        model(*self)
    }
}

/// The model of a value.
pub open spec fn model(v: BencodeValue) -> Bencode
    decreases v,
{
    match v {
        BencodeValue::Integer(n) => Bencode::Int(n as int),
        BencodeValue::ByteString(b) => Bencode::Bytes(b@),
        BencodeValue::List(items) => Bencode::List(items_view(items@)),
        BencodeValue::Dictionary(entries) => Bencode::Dict(entries_view(entries@)),
    }
}

/// The models of a sequence of values.
pub open spec fn items_view(items: Seq<BencodeValue>) -> Seq<Bencode>
    decreases items,
{
    if items.len() == 0 {
        Seq::empty()
    } else {
        items_view(items.subrange(0, items.len() - 1)).push(model(items[items.len() - 1]))
    }
}

/// The models of a sequence of dictionary entries.
pub open spec fn entries_view(entries: Seq<(Vec<u8>, BencodeValue)>) -> Seq<(Seq<u8>, Bencode)>
    decreases entries,
{
    if entries.len() == 0 {
        Seq::empty()
    } else {
        let last = entries[entries.len() - 1];
        entries_view(entries.subrange(0, entries.len() - 1)).push((last.0@, model(last.1)))
    }
}

pub(crate) proof fn lemma_items_view(items: Seq<BencodeValue>)
    ensures
        items_view(items).len() == items.len(),
        forall|k: int| 0 <= k < items.len() ==> #[trigger] items_view(items)[k] == items[k]@,
    decreases items.len(),
{
    if items.len() > 0 {
        lemma_items_view(items.subrange(0, items.len() - 1));
    }
}

pub(crate) proof fn lemma_entries_view(entries: Seq<(Vec<u8>, BencodeValue)>)
    ensures
        entries_view(entries).len() == entries.len(),
        forall|k: int|
            0 <= k < entries.len() ==> #[trigger] entries_view(entries)[k] == (
            entries[k].0@,
            entries[k].1@,
        ),
    decreases entries.len(),
{
    if entries.len() > 0 {
        lemma_entries_view(entries.subrange(0, entries.len() - 1));
    }
}

/// The ASCII decimal digits of `n`, most significant first, without leading zeros.
pub open spec fn decimal(n: nat) -> Seq<u8>
    decreases n,
{
    if n < 10 {
        seq![(48 + n) as u8]
    } else {
        decimal(n / 10).push((48 + n % 10) as u8)
    }
}

/// `n` in decimal, with a leading `-` when it is negative.
pub open spec fn signed_decimal(n: int) -> Seq<u8> {
    if n < 0 {
        seq![45u8] + decimal((-n) as nat)
    } else {
        decimal(n as nat)
    }
}

/// A byte string as bencode writes it: `<len>:<bytes>`.
pub open spec fn bytes_encoding(b: Seq<u8>) -> Seq<u8> {
    decimal(b.len()) + seq![58u8] + b
}

/// The bencode encoding of a value.
pub open spec fn encoding(v: Bencode) -> Seq<u8>
    decreases v,
{
    match v {
        Bencode::Int(n) => seq![105u8] + signed_decimal(n) + seq![101u8],
        Bencode::Bytes(b) => bytes_encoding(b),
        Bencode::List(items) => seq![108u8] + items_encoding(items) + seq![101u8],
        Bencode::Dict(entries) => seq![100u8] + entries_encoding(entries) + seq![101u8],
    }
}

/// The encodings of the items of a list, one after another.
pub open spec fn items_encoding(items: Seq<Bencode>) -> Seq<u8>
    decreases items,
{
    if items.len() == 0 {
        Seq::empty()
    } else {
        encoding(items[0]) + items_encoding(items.subrange(1, items.len() as int))
    }
}

/// The encodings of the entries of a dictionary: each key, then its value.
pub open spec fn entries_encoding(entries: Seq<(Seq<u8>, Bencode)>) -> Seq<u8>
    decreases entries,
{
    if entries.len() == 0 {
        Seq::empty()
    } else {
        bytes_encoding(entries[0].0) + encoding(entries[0].1) + entries_encoding(
            entries.subrange(1, entries.len() as int),
        )
    }
}

proof fn lemma_items_encoding_push(items: Seq<Bencode>, v: Bencode)
    ensures
        items_encoding(items.push(v)) == items_encoding(items) + encoding(v),
    decreases items.len(),
{
    reveal_with_fuel(items_encoding, 2);
    let ext = items.push(v);
    if items.len() == 0 {
        assert(ext.subrange(1, ext.len() as int) =~= Seq::<Bencode>::empty());
        assert(items_encoding(ext) =~= encoding(v));
    } else {
        let tail = items.subrange(1, items.len() as int);
        assert(ext.subrange(1, ext.len() as int) =~= tail.push(v));
        lemma_items_encoding_push(tail, v);
        assert(items_encoding(ext) =~= items_encoding(items) + encoding(v));
    }
}

proof fn lemma_entries_encoding_push(entries: Seq<(Seq<u8>, Bencode)>, e: (Seq<u8>, Bencode))
    ensures
        entries_encoding(entries.push(e)) == entries_encoding(entries) + bytes_encoding(e.0)
            + encoding(e.1),
    decreases entries.len(),
{
    reveal_with_fuel(entries_encoding, 2);
    let ext = entries.push(e);
    if entries.len() == 0 {
        assert(ext.subrange(1, ext.len() as int) =~= Seq::<(Seq<u8>, Bencode)>::empty());
        assert(entries_encoding(ext) =~= bytes_encoding(e.0) + encoding(e.1));
    } else {
        let tail = entries.subrange(1, entries.len() as int);
        assert(ext.subrange(1, ext.len() as int) =~= tail.push(e));
        lemma_entries_encoding_push(tail, e);
        assert(entries_encoding(ext) =~= entries_encoding(entries) + bytes_encoding(e.0)
            + encoding(e.1));
    }
}

pub(crate) proof fn lemma_view_unfold(v: BencodeValue)
    ensures
        v is List ==> {
            &&& v@ is List
            &&& v@->List_0.len() == v->List_0.len()
            &&& forall|k: int|
                0 <= k < v->List_0.len() ==> #[trigger] v@->List_0[k] == v->List_0[k]@
        },
        v is Dictionary ==> {
            &&& v@ is Dict
            &&& v@->Dict_0.len() == v->Dictionary_0.len()
            &&& forall|k: int|
                0 <= k < v->Dictionary_0.len() ==> #[trigger] v@->Dict_0[k] == (
                v->Dictionary_0[k].0@,
                v->Dictionary_0[k].1@,
            )
        },
{
    if v is List {
        lemma_items_view(v->List_0@);
    }
    if v is Dictionary {
        lemma_entries_view(v->Dictionary_0@);
    }
}

proof fn lemma_children_decrease(v: BencodeValue)
    ensures
        v is List ==> forall|k: int|
            0 <= k < v->List_0.len() ==> decreases_to!(v => #[trigger] v->List_0[k]),
        v is Dictionary ==> forall|k: int|
            0 <= k < v->Dictionary_0.len() ==> decreases_to!(v => #[trigger] v->Dictionary_0[k].1),
{
    if v is List {
        let items = v->List_0;
        assert forall|k: int| 0 <= k < items.len() implies decreases_to!(v => #[trigger] items[k]) by {
            vstd::std_specs::vec::axiom_vec_index_decreases(items, k);
            assert(decreases_to!(v => v->List_0));
        }
    }
    if v is Dictionary {
        let entries = v->Dictionary_0;
        assert forall|k: int|
            0 <= k < entries.len() implies decreases_to!(v => #[trigger] entries[k].1) by {
            vstd::std_specs::vec::axiom_vec_index_decreases(entries, k);
            assert(decreases_to!(v => v->Dictionary_0));
            assert(decreases_to!(entries[k] => entries[k].1));
        }
    }
}

/// Appends the decimal digits of `n`.
fn push_decimal(n: u64, out: &mut Vec<u8>)
    ensures
        final(out)@ == old(out)@ + decimal(n as nat),
    decreases n,
{
    if n >= 10 {
        push_decimal(n / 10, out);
    }
    out.push((48 + n % 10) as u8);
    assert(out@ =~= old(out)@ + decimal(n as nat));
}

/// Appends `<len>:<bytes>`.
fn push_byte_string(b: &[u8], out: &mut Vec<u8>)
    ensures
        final(out)@ == old(out)@ + bytes_encoding(b@),
{
    push_decimal(b.len() as u64, out);
    out.push(58u8);
    out.extend_from_slice(b);
    assert(out@ =~= old(out)@ + bytes_encoding(b@));
}

/// Appends the encoding of `v`.
fn encode_into(v: &BencodeValue, out: &mut Vec<u8>)
    ensures
        final(out)@ == old(out)@ + encoding(v@),
    decreases *v,
{
    match v {
        BencodeValue::Integer(n) => {
            out.push(105u8);
            if *n < 0 {
                out.push(45u8);
                push_decimal((0i128 - *n as i128) as u64, out);
            } else {
                push_decimal(*n as u64, out);
            }
            out.push(101u8);
            assert(out@ =~= old(out)@ + encoding(v@));
        },
        BencodeValue::ByteString(b) => {
            push_byte_string(b.as_slice(), out);
        },
        BencodeValue::List(items) => {
            out.push(108u8);
            let ghost start = out@;
            proof {
                lemma_view_unfold(*v);
            }
            let mut i: usize = 0;
            while i < items.len()
                invariant
                    0 <= i <= items.len(),
                    out@ == start + items_encoding(v@->List_0.take(i as int)),
                    v@ == Bencode::List(v@->List_0),
                    *v == BencodeValue::List(*items),
                    v@->List_0.len() == items.len(),
                    forall|k: int| 0 <= k < items.len() ==> #[trigger] v@->List_0[k] == items[k]@,
                decreases items.len() - i,
            {
                proof {
                    lemma_children_decrease(*v);
                    assert(decreases_to!(*v => (*v)->List_0[i as int]));
                }
                encode_into(&items[i], out);
                proof {
                    let seen = v@->List_0;
                    assert(seen.take(i + 1) =~= seen.take(i as int).push(items[i as int]@));
                    lemma_items_encoding_push(seen.take(i as int), items[i as int]@);
                }
                i = i + 1;
            }
            out.push(101u8);
            assert(v@->List_0.take(items.len() as int) =~= v@->List_0);
            assert(out@ =~= old(out)@ + encoding(v@));
        },
        BencodeValue::Dictionary(entries) => {
            out.push(100u8);
            let ghost start = out@;
            proof {
                lemma_view_unfold(*v);
            }
            let mut i: usize = 0;
            while i < entries.len()
                invariant
                    0 <= i <= entries.len(),
                    out@ == start + entries_encoding(v@->Dict_0.take(i as int)),
                    v@ == Bencode::Dict(v@->Dict_0),
                    *v == BencodeValue::Dictionary(*entries),
                    v@->Dict_0.len() == entries.len(),
                    forall|k: int|
                        0 <= k < entries.len() ==> #[trigger] v@->Dict_0[k] == (
                        entries[k].0@,
                        entries[k].1@,
                    ),
                decreases entries.len() - i,
            {
                push_byte_string(entries[i].0.as_slice(), out);
                proof {
                    lemma_children_decrease(*v);
                    assert(decreases_to!(*v => (*v)->Dictionary_0[i as int].1));
                }
                encode_into(&entries[i].1, out);
                proof {
                    let seen = v@->Dict_0;
                    assert(seen.take(i + 1) =~= seen.take(i as int).push(seen[i as int]));
                    lemma_entries_encoding_push(seen.take(i as int), seen[i as int]);
                }
                i = i + 1;
            }
            out.push(101u8);
            assert(v@->Dict_0.take(entries.len() as int) =~= v@->Dict_0);
            assert(out@ =~= old(out)@ + encoding(v@));
        },
    }
}

/// Encodes a value: `i<n>e`, `<len>:<bytes>`, `l...e` and `d...e`, with the
/// entries of a dictionary in their stored order.
pub fn encode_bencoded_value(v: &BencodeValue) -> (r: Vec<u8>)
    ensures
        r@ == encoding(v@),
{
    let mut out: Vec<u8> = Vec::new();
    encode_into(v, &mut out);
    assert(out@ =~= encoding(v@));
    out
}



/// How deeply lists and dictionaries may nest in decoded input.
pub const MAX_DEPTH: usize = 64;

pub open spec fn is_digit(c: u8) -> bool {
    48 <= c <= 57
}

/// Where the run of ASCII digits that starts at `pos` ends.
pub open spec fn digit_run_end(s: Seq<u8>, pos: int) -> int
    decreases s.len() - pos,
{
    if 0 <= pos < s.len() && is_digit(s[pos]) {
        digit_run_end(s, pos + 1)
    } else {
        pos
    }
}

/// The number that a sequence of ASCII digits writes in decimal.
pub open spec fn digits_value(d: Seq<u8>) -> nat
    decreases d.len(),
{
    if d.len() == 0 {
        0
    } else {
        digits_value(d.drop_last()) * 10 + (d.last() - 48) as nat
    }
}

/// `i<digits>e` at `pos`, with an optional `-`, whose value fits in 64 signed
/// bits: the integer and the position after the `e`.
pub open spec fn parse_integer(s: Seq<u8>, pos: int) -> Option<(int, int)> {
    let neg = pos + 1 < s.len() && s[pos + 1] == 45u8;
    let start = if neg {
        pos + 2
    } else {
        pos + 1
    };
    let end = digit_run_end(s, start);
    let mag = digits_value(s.subrange(start, end));
    if start < end && end < s.len() && s[end] == 101u8 && (if neg {
        mag <= 0x8000_0000_0000_0000
    } else {
        mag < 0x8000_0000_0000_0000
    }) {
        Some((if neg { -mag } else { mag as int }, end + 1))
    } else {
        None
    }
}

/// `<len>:<bytes>` at `pos`: the bytes and the position after them.
pub open spec fn parse_byte_string(s: Seq<u8>, pos: int) -> Option<(Seq<u8>, int)> {
    let end = digit_run_end(s, pos);
    let n = digits_value(s.subrange(pos, end));
    if pos < end && end < s.len() && s[end] == 58u8 && end + 1 + n <= s.len() {
        Some((s.subrange(end + 1, end + 1 + n), end + 1 + n))
    } else {
        None
    }
}

/// No two entries share a key.
pub open spec fn keys_unique(entries: Seq<(Seq<u8>, Bencode)>) -> bool {
    forall|i: int, j: int| 0 <= i < j < entries.len() ==> entries[i].0 != entries[j].0
}

/// The value that starts at `pos`, with lists and dictionaries nested at most
/// `depth` deep, and the position after it.
pub open spec fn parse_value(s: Seq<u8>, pos: int, depth: nat) -> Option<(Bencode, int)>
    decreases depth, 0int, 0int,
{
    if !(0 <= pos < s.len()) {
        None
    } else if s[pos] == 105u8 {
        match parse_integer(s, pos) {
            Some((n, end)) => Some((Bencode::Int(n), end)),
            None => None,
        }
    } else if is_digit(s[pos]) {
        match parse_byte_string(s, pos) {
            Some((b, end)) => Some((Bencode::Bytes(b), end)),
            None => None,
        }
    } else if s[pos] == 108u8 && depth > 0 {
        match parse_items(s, pos + 1, (depth - 1) as nat) {
            Some((items, end)) => Some((Bencode::List(items), end)),
            None => None,
        }
    } else if s[pos] == 100u8 && depth > 0 {
        match parse_entries(s, pos + 1, (depth - 1) as nat) {
            Some((entries, end)) => if keys_unique(entries) {
                Some((Bencode::Dict(entries), end))
            } else {
                None
            },
            None => None,
        }
    } else {
        None
    }
}

/// The values from `pos` up to the `e` that closes a list, and the position
/// after that `e`.
pub open spec fn parse_items(s: Seq<u8>, pos: int, depth: nat) -> Option<(Seq<Bencode>, int)>
    decreases depth, 1int, s.len() - pos,
{
    if !(0 <= pos < s.len()) {
        None
    } else if s[pos] == 101u8 {
        Some((Seq::empty(), pos + 1))
    } else {
        match parse_value(s, pos, depth) {
            Some((v, next)) => if pos < next <= s.len() {
                match parse_items(s, next, depth) {
                    Some((rest, end)) => Some((seq![v] + rest, end)),
                    None => None,
                }
            } else {
                None
            },
            None => None,
        }
    }
}

/// The key and value pairs from `pos` up to the `e` that closes a
/// dictionary, and the position after that `e`.
pub open spec fn parse_entries(s: Seq<u8>, pos: int, depth: nat) -> Option<
    (Seq<(Seq<u8>, Bencode)>, int),
>
    decreases depth, 1int, s.len() - pos,
{
    if !(0 <= pos < s.len()) {
        None
    } else if s[pos] == 101u8 {
        Some((Seq::empty(), pos + 1))
    } else if !is_digit(s[pos]) {
        None
    } else {
        match parse_byte_string(s, pos) {
            Some((key, after_key)) => match parse_value(s, after_key, depth) {
                Some((v, next)) => if pos < next <= s.len() {
                    match parse_entries(s, next, depth) {
                        Some((rest, end)) => Some((seq![(key, v)] + rest, end)),
                        None => None,
                    }
                } else {
                    None
                },
                None => None,
            },
            None => None,
        }
    }
}

/// What decoding `s` from its start gives: the value and how many bytes it took.
pub open spec fn decoding(s: Seq<u8>) -> Option<(Bencode, int)> {
    parse_value(s, 0, MAX_DEPTH as nat)
}

proof fn lemma_digit_run(s: Seq<u8>, pos: int)
    requires
        0 <= pos <= s.len(),
    ensures
        pos <= digit_run_end(s, pos) <= s.len(),
        digit_run_end(s, pos) == s.len() || !is_digit(s[digit_run_end(s, pos)]),
        forall|k: int| pos <= k < digit_run_end(s, pos) ==> is_digit(#[trigger] s[k]),
    decreases s.len() - pos,
{
    if pos < s.len() && is_digit(s[pos]) {
        lemma_digit_run(s, pos + 1);
    }
}

proof fn lemma_digits_monotone(s: Seq<u8>, start: int, i: int, j: int)
    requires
        0 <= start <= i <= j <= s.len(),
        forall|k: int| i <= k < j ==> is_digit(#[trigger] s[k]),
    ensures
        digits_value(s.subrange(start, i)) <= digits_value(s.subrange(start, j)),
    decreases j - i,
{
    if i < j {
        lemma_digits_monotone(s, start, i, j - 1);
        assert(s.subrange(start, j).drop_last() =~= s.subrange(start, j - 1));
    }
}

/// Reads the run of digits at `start`, as long as its value stays within `limit`.
fn read_decimal(s: &[u8], start: usize, limit: u64) -> (r: Option<(usize, u64)>)
    requires
        start <= s.len(),
    ensures
        start <= digit_run_end(s@, start as int) <= s.len(),
        match r {
            Some((end, v)) => end == digit_run_end(s@, start as int) && v == digits_value(
                s@.subrange(start as int, end as int),
            ) && v <= limit,
            None => digits_value(s@.subrange(start as int, digit_run_end(s@, start as int)))
                > limit,
        },
{
    proof {
        lemma_digit_run(s@, start as int);
    }
    let mut i: usize = start;
    let mut acc: u64 = 0;
    assert(s@.subrange(start as int, start as int) =~= Seq::<u8>::empty());
    while i < s.len() && 48 <= s[i] && s[i] <= 57
        invariant
            start <= i <= s.len(),
            start <= digit_run_end(s@, start as int) <= s.len(),
            forall|k: int|
                start <= k < digit_run_end(s@, start as int) ==> is_digit(#[trigger] s@[k]),
            digit_run_end(s@, i as int) == digit_run_end(s@, start as int),
            acc == digits_value(s@.subrange(start as int, i as int)),
            acc <= limit,
        decreases s.len() - i,
    {
        let d = (s[i] - 48) as u64;
        assert(s@.subrange(start as int, i + 1).drop_last() =~= s@.subrange(start as int, i as int));
        proof {
            lemma_digit_run(s@, i as int);
        }
        if (acc as u128) * 10 + (d as u128) > limit as u128 {
            proof {
                lemma_digits_monotone(
                    s@,
                    start as int,
                    i + 1,
                    digit_run_end(s@, start as int),
                );
            }
            return None;
        }
        acc = acc * 10 + d;
        i = i + 1;
    }
    Some((i, acc))
}

fn decode_integer(s: &[u8], pos: usize) -> (r: Option<(i64, usize)>)
    requires
        pos < s.len(),
    ensures
        match r {
            Some((n, end)) => parse_integer(s@, pos as int) == Some((n as int, end as int)),
            None => parse_integer(s@, pos as int) is None,
        },
{
    let neg = pos + 1 < s.len() && s[pos + 1] == 45u8;
    let start = if neg {
        pos + 2
    } else {
        pos + 1
    };
    let limit: u64 = if neg {
        0x8000_0000_0000_0000
    } else {
        0x7fff_ffff_ffff_ffff
    };
    match read_decimal(s, start, limit) {
        None => None,
        Some((end, mag)) => {
            if start < end && end < s.len() && s[end] == 101u8 {
                let n: i64 = if !neg {
                    mag as i64
                } else if mag == 0x8000_0000_0000_0000 {
                    i64::MIN
                } else {
                    0 - (mag as i64)
                };
                Some((n, end + 1))
            } else {
                None
            }
        },
    }
}

fn decode_byte_string(s: &[u8], pos: usize) -> (r: Option<(Vec<u8>, usize)>)
    requires
        pos < s.len(),
    ensures
        match r {
            Some((b, end)) => parse_byte_string(s@, pos as int) == Some((b@, end as int)),
            None => parse_byte_string(s@, pos as int) is None,
        },
{
    match read_decimal(s, pos, s.len() as u64) {
        None => None,
        Some((end, n)) => {
            if pos < end && end < s.len() && s[end] == 58u8 && n <= (s.len() - end - 1) as u64 {
                let n = n as usize;
                let b = slice_to_vec(slice_subrange(s, end + 1, end + 1 + n));
                Some((b, end + 1 + n))
            } else {
                None
            }
        },
    }
}


/// `pre` put in front of the sequence that a parse gave.
pub open spec fn prefixed<A>(pre: Seq<A>, r: Option<(Seq<A>, int)>) -> Option<(Seq<A>, int)> {
    match r {
        Some((rest, end)) => Some((pre + rest, end)),
        None => None,
    }
}

pub(crate) fn bytes_equal(a: &[u8], b: &[u8]) -> (r: bool)
    ensures
        r == (a@ == b@),
{
    if a.len() != b.len() {
        return false;
    }
    let mut i: usize = 0;
    while i < a.len()
        invariant
            a.len() == b.len(),
            0 <= i <= a.len(),
            forall|k: int| 0 <= k < i ==> a@[k] == b@[k],
        decreases a.len() - i,
    {
        if a[i] != b[i] {
            return false;
        }
        i = i + 1;
    }
    assert(a@ =~= b@);
    true
}

fn keys_distinct(entries: &Vec<(Vec<u8>, BencodeValue)>) -> (r: bool)
    ensures
        r == keys_unique(entries_view(entries@)),
{
    proof {
        lemma_entries_view(entries@);
    }
    let n = entries.len();
    let mut i: usize = 0;
    while i < n
        invariant
            n == entries.len(),
            0 <= i <= n,
            entries_view(entries@).len() == n,
            forall|k: int|
                0 <= k < n ==> #[trigger] entries_view(entries@)[k] == (
                entries[k].0@,
                entries[k].1@,
            ),
            forall|a: int, b: int|
                0 <= a < b < n && a < i ==> entries[a].0@ != entries[b].0@,
        decreases n - i,
    {
        let mut j: usize = i + 1;
        while j < n
            invariant
                n == entries.len(),
                0 <= i < n,
                i < j <= n,
                entries_view(entries@).len() == n,
                forall|k: int|
                    0 <= k < n ==> #[trigger] entries_view(entries@)[k] == (
                    entries[k].0@,
                    entries[k].1@,
                ),
                forall|a: int, b: int|
                    0 <= a < b < n && a < i ==> entries[a].0@ != entries[b].0@,
                forall|b: int| i < b < j ==> entries[i as int].0@ != entries[b].0@,
            decreases n - j,
        {
            if bytes_equal(entries[i].0.as_slice(), entries[j].0.as_slice()) {
                assert(entries_view(entries@)[i as int].0 == entries_view(entries@)[j as int].0);
                return false;
            }
            j = j + 1;
        }
        i = i + 1;
    }
    assert forall|a: int, b: int|
        0 <= a < b < entries_view(entries@).len() implies entries_view(entries@)[a].0
        != entries_view(entries@)[b].0 by {
        assert(entries_view(entries@)[a].0 == entries[a].0@);
        assert(entries_view(entries@)[b].0 == entries[b].0@);
    }
    true
}

pub(crate) proof fn lemma_items_view_push(items: Seq<BencodeValue>, v: BencodeValue)
    ensures
        items_view(items.push(v)) == items_view(items).push(v@),
{
    assert(items.push(v).subrange(0, items.len() as int) =~= items);
}

pub(crate) proof fn lemma_entries_view_push(entries: Seq<(Vec<u8>, BencodeValue)>, e: (Vec<u8>, BencodeValue))
    ensures
        entries_view(entries.push(e)) == entries_view(entries).push((e.0@, e.1@)),
{
    assert(entries.push(e).subrange(0, entries.len() as int) =~= entries);
}

fn decode_value(s: &[u8], pos: usize, depth: usize) -> (r: Result<
    (BencodeValue, usize),
    BittorrentError,
>)
    requires
        pos <= s.len(),
    ensures
        match r {
            Ok((v, end)) => parse_value(s@, pos as int, depth as nat) == Some((v@, end as int))
                && pos < end <= s.len(),
            Err(e) => parse_value(s@, pos as int, depth as nat) is None && e
                == BittorrentError::DecodeError,
        },
    decreases depth,
{
    if pos >= s.len() {
        return Err(BittorrentError::DecodeError);
    }
    let c = s[pos];
    if c == 105u8 {
        match decode_integer(s, pos) {
            Some((n, end)) => Ok((BencodeValue::Integer(n), end)),
            None => Err(BittorrentError::DecodeError),
        }
    } else if 48 <= c && c <= 57 {
        match decode_byte_string(s, pos) {
            Some((b, end)) => Ok((BencodeValue::ByteString(b), end)),
            None => Err(BittorrentError::DecodeError),
        }
    } else if c == 108u8 && depth > 0 {
        let ghost d = (depth - 1) as nat;
        let mut items: Vec<BencodeValue> = Vec::new();
        let mut p: usize = pos + 1;
        assert(items_view(items@) =~= Seq::<Bencode>::empty());
        assert(prefixed(items_view(items@), parse_items(s@, p as int, d)) =~= parse_items(
            s@,
            p as int,
            d,
        )) by {
            if let Some((rest, end)) = parse_items(s@, p as int, d) {
                assert(Seq::<Bencode>::empty() + rest =~= rest);
            }
        }
        loop
            invariant
                pos < p <= s.len(),
                s[pos as int] == 108u8,
                depth > 0,
                d == depth - 1,
                parse_items(s@, pos + 1, d) == prefixed(
                    items_view(items@),
                    parse_items(s@, p as int, d),
                ),
            decreases s.len() - p,
        {
            if p >= s.len() {
                return Err(BittorrentError::DecodeError);
            }
            if s[p] == 101u8 {
                let ghost pre = items_view(items@);
                assert(pre + Seq::<Bencode>::empty() =~= pre);
                return Ok((BencodeValue::List(items), p + 1));
            }
            match decode_value(s, p, depth - 1) {
                Err(e) => {
                    return Err(e);
                },
                Ok((v, next)) => {
                    proof {
                        let pre = items_view(items@);
                        lemma_items_view_push(items@, v);
                        if let Some((rest, end)) = parse_items(s@, next as int, d) {
                            assert(pre + (seq![v@] + rest) =~= pre.push(v@) + rest);
                        }
                    }
                    items.push(v);
                    p = next;
                },
            }
        }
    } else if c == 100u8 && depth > 0 {
        let ghost d = (depth - 1) as nat;
        let mut entries: Vec<(Vec<u8>, BencodeValue)> = Vec::new();
        let mut p: usize = pos + 1;
        assert(entries_view(entries@) =~= Seq::<(Seq<u8>, Bencode)>::empty());
        assert(prefixed(entries_view(entries@), parse_entries(s@, p as int, d)) =~= parse_entries(
            s@,
            p as int,
            d,
        )) by {
            if let Some((rest, end)) = parse_entries(s@, p as int, d) {
                assert(Seq::<(Seq<u8>, Bencode)>::empty() + rest =~= rest);
            }
        }
        loop
            invariant
                pos < p <= s.len(),
                s[pos as int] == 100u8,
                depth > 0,
                d == depth - 1,
                parse_entries(s@, pos + 1, d) == prefixed(
                    entries_view(entries@),
                    parse_entries(s@, p as int, d),
                ),
            decreases s.len() - p,
        {
            if p >= s.len() {
                return Err(BittorrentError::DecodeError);
            }
            if s[p] == 101u8 {
                let ghost pre = entries_view(entries@);
                assert(pre + Seq::<(Seq<u8>, Bencode)>::empty() =~= pre);
                if keys_distinct(&entries) {
                    return Ok((BencodeValue::Dictionary(entries), p + 1));
                } else {
                    return Err(BittorrentError::DecodeError);
                }
            }
            if !(48 <= s[p] && s[p] <= 57) {
                return Err(BittorrentError::DecodeError);
            }
            let (key, after_key) = match decode_byte_string(s, p) {
                Some(k) => k,
                None => {
                    return Err(BittorrentError::DecodeError);
                },
            };
            match decode_value(s, after_key, depth - 1) {
                Err(e) => {
                    return Err(e);
                },
                Ok((v, next)) => {
                    proof {
                        let pre = entries_view(entries@);
                        lemma_entries_view_push(entries@, (key, v));
                        if let Some((rest, end)) = parse_entries(s@, next as int, d) {
                            assert(pre + (seq![(key@, v@)] + rest) =~= pre.push((key@, v@))
                                + rest);
                        }
                    }
                    entries.push((key, v));
                    p = next;
                },
            }
        }
    } else {
        Err(BittorrentError::DecodeError)
    }
}

/// Decodes the bencode value at the start of `input` and hands back the
/// bytes that follow it. Lists and dictionaries may nest at most
/// `MAX_DEPTH` deep.
pub fn decode_bencoded_value(input: &[u8]) -> (r: Result<(BencodeValue, &[u8]), BittorrentError>)
    ensures
        match r {
            Ok((v, rest)) => exists|n: int|
                0 <= n <= input@.len() && decoding(input@) == Some((v@, n)) && rest@
                    == input@.subrange(n, input@.len() as int),
            Err(e) => decoding(input@) is None && e == BittorrentError::DecodeError,
        },
{
    match decode_value(input, 0, MAX_DEPTH) {
        Ok((v, end)) => {
            let rest = slice_subrange(input, end, input.len());
            Ok((v, rest))
        },
        Err(e) => Err(e),
    }
}


/// A model value that this codec can carry: integers fit in 64 signed bits,
/// dictionary keys are distinct, and lists and dictionaries nest at most
/// `depth` deep.
pub open spec fn well_formed(v: Bencode, depth: nat) -> bool
    decreases v,
{
    match v {
        Bencode::Int(n) => i64::MIN <= n <= i64::MAX,
        Bencode::Bytes(_) => true,
        Bencode::List(items) => depth > 0 && items_well_formed(items, (depth - 1) as nat),
        Bencode::Dict(entries) => depth > 0 && keys_unique(entries) && entries_well_formed(
            entries,
            (depth - 1) as nat,
        ),
    }
}

pub open spec fn items_well_formed(items: Seq<Bencode>, depth: nat) -> bool
    decreases items,
{
    items.len() > 0 ==> {
        &&& well_formed(items[0], depth)
        &&& items_well_formed(items.subrange(1, items.len() as int), depth)
    }
}

pub open spec fn entries_well_formed(entries: Seq<(Seq<u8>, Bencode)>, depth: nat) -> bool
    decreases entries,
{
    entries.len() > 0 ==> {
        &&& well_formed(entries[0].1, depth)
        &&& entries_well_formed(entries.subrange(1, entries.len() as int), depth)
    }
}

proof fn lemma_decimal(n: nat)
    ensures
        decimal(n).len() >= 1,
        forall|k: int| 0 <= k < decimal(n).len() ==> is_digit(#[trigger] decimal(n)[k]),
        digits_value(decimal(n)) == n,
    decreases n,
{
    if n >= 10 {
        lemma_decimal(n / 10);
        assert(decimal(n).drop_last() =~= decimal(n / 10));
        assert(decimal(n).last() == (48 + n % 10) as u8);
        assert(((48 + n % 10) as u8 - 48) as nat == n % 10);
        assert((n / 10) * 10 + n % 10 == n);
    } else {
        assert(decimal(n).drop_last() =~= Seq::<u8>::empty());
        assert(digits_value(decimal(n).drop_last()) == 0);
    }
}

proof fn lemma_run_exact(s: Seq<u8>, start: int, len: int)
    requires
        0 <= start,
        0 <= len,
        start + len <= s.len(),
        forall|k: int| start <= k < start + len ==> is_digit(#[trigger] s[k]),
        start + len == s.len() || !is_digit(s[start + len]),
    ensures
        digit_run_end(s, start) == start + len,
    decreases len,
{
    if len > 0 {
        lemma_run_exact(s, start + 1, len - 1);
    }
}

proof fn lemma_window(s: Seq<u8>, pos: int, e: Seq<u8>, i: int, j: int)
    requires
        0 <= pos,
        pos + e.len() <= s.len(),
        s.subrange(pos, pos + e.len()) == e,
        0 <= i <= j <= e.len(),
    ensures
        s.subrange(pos + i, pos + j) == e.subrange(i, j),
{
    assert forall|k: int| 0 <= k < j - i implies s.subrange(pos + i, pos + j)[k] == e.subrange(
        i,
        j,
    )[k] by {
        assert(s[pos + i + k] == s.subrange(pos, pos + e.len())[i + k]);
    }
    assert(s.subrange(pos + i, pos + j) =~= e.subrange(i, j));
}

proof fn lemma_at(s: Seq<u8>, pos: int, e: Seq<u8>, k: int)
    requires
        0 <= pos,
        pos + e.len() <= s.len(),
        s.subrange(pos, pos + e.len()) == e,
        0 <= k < e.len(),
    ensures
        s[pos + k] == e[k],
{
    assert(s[pos + k] == s.subrange(pos, pos + e.len())[k]);
}

proof fn lemma_first_byte(v: Bencode)
    ensures
        encoding(v).len() >= 1,
        encoding(v)[0] != 101u8,
        v is Bytes <==> is_digit(encoding(v)[0]),
        v is Int <==> encoding(v)[0] == 105u8,
{
    if let Bencode::Bytes(b) = v {
        lemma_decimal(b.len());
        assert(encoding(v)[0] == decimal(b.len())[0]);
    }
}

proof fn lemma_parse_bytes(b: Seq<u8>, s: Seq<u8>, pos: int)
    requires
        0 <= pos,
        pos + bytes_encoding(b).len() <= s.len(),
        s.subrange(pos, pos + bytes_encoding(b).len()) == bytes_encoding(b),
    ensures
        parse_byte_string(s, pos) == Some((b, pos + bytes_encoding(b).len())),
{
    let e = bytes_encoding(b);
    let dec = decimal(b.len());
    lemma_decimal(b.len());
    assert forall|k: int| pos <= k < pos + dec.len() implies is_digit(#[trigger] s[k]) by {
        lemma_at(s, pos, e, k - pos);
        assert(e[k - pos] == dec[k - pos]);
    }
    lemma_at(s, pos, e, dec.len() as int);
    assert(e[dec.len() as int] == 58u8);
    lemma_run_exact(s, pos, dec.len() as int);
    lemma_window(s, pos, e, 0, dec.len() as int);
    assert(e.subrange(0, dec.len() as int) =~= dec);
    lemma_window(s, pos, e, dec.len() as int + 1, e.len() as int);
    assert(e.subrange(dec.len() as int + 1, e.len() as int) =~= b);
}

proof fn lemma_parse_encoding(v: Bencode, s: Seq<u8>, pos: int, depth: nat)
    requires
        well_formed(v, depth),
        0 <= pos,
        pos + encoding(v).len() <= s.len(),
        s.subrange(pos, pos + encoding(v).len()) == encoding(v),
    ensures
        parse_value(s, pos, depth) == Some((v, pos + encoding(v).len())),
    decreases v,
{
    let e = encoding(v);
    lemma_first_byte(v);
    lemma_at(s, pos, e, 0);
    match v {
        Bencode::Int(n) => {
            let sd = signed_decimal(n);
            let neg = n < 0;
            let start = if neg { pos + 2 } else { pos + 1 };
            let dec = if neg { decimal((-n) as nat) } else { decimal(n as nat) };
            let off = if neg { 2int } else { 1int };
            lemma_decimal(if neg { (-n) as nat } else { n as nat });
            assert(e == seq![105u8] + sd + seq![101u8]);
            assert(e.len() == dec.len() + off + 1);
            assert forall|k: int| 0 <= k < dec.len() implies e[off + k] == dec[k] by {}
            lemma_at(s, pos, e, 1);
            if neg {
                assert(s[pos + 1] == 45u8);
            } else {
                assert(e[1] == dec[0]);
                assert(s[pos + 1] != 45u8);
            }
            assert forall|k: int| start <= k < start + dec.len() implies is_digit(#[trigger] s[k]) by {
                lemma_at(s, pos, e, k - pos);
                assert(e[k - pos] == dec[k - start]);
            }
            lemma_at(s, pos, e, off + dec.len());
            lemma_run_exact(s, start, dec.len() as int);
            lemma_window(s, pos, e, off, off + dec.len());
            assert(e.subrange(off, off + dec.len()) =~= dec);
        },
        Bencode::Bytes(b) => {
            lemma_parse_bytes(b, s, pos);
        },
        Bencode::List(items) => {
            let inner = items_encoding(items);
            assert(e == seq![108u8] + inner + seq![101u8]);
            lemma_window(s, pos, e, 1, e.len() as int);
            assert(e.subrange(1, e.len() as int) =~= inner + seq![101u8]);
            lemma_parse_items(items, s, pos + 1, (depth - 1) as nat);
        },
        Bencode::Dict(entries) => {
            let inner = entries_encoding(entries);
            assert(e == seq![100u8] + inner + seq![101u8]);
            lemma_window(s, pos, e, 1, e.len() as int);
            assert(e.subrange(1, e.len() as int) =~= inner + seq![101u8]);
            lemma_parse_entries(entries, s, pos + 1, (depth - 1) as nat);
        },
    }
}

proof fn lemma_parse_items(items: Seq<Bencode>, s: Seq<u8>, pos: int, depth: nat)
    requires
        items_well_formed(items, depth),
        0 <= pos,
        pos + items_encoding(items).len() + 1 <= s.len(),
        s.subrange(pos, pos + items_encoding(items).len() + 1) == items_encoding(items) + seq![
            101u8,
        ],
    ensures
        parse_items(s, pos, depth) == Some((items, pos + items_encoding(items).len() + 1)),
    decreases items,
{
    let e = items_encoding(items) + seq![101u8];
    lemma_at(s, pos, e, 0);
    if items.len() > 0 {
        let head = encoding(items[0]);
        let tail = items.subrange(1, items.len() as int);
        lemma_first_byte(items[0]);
        assert(e[0] == head[0]);
        lemma_window(s, pos, e, 0, head.len() as int);
        assert(e.subrange(0, head.len() as int) =~= head);
        lemma_parse_encoding(items[0], s, pos, depth);
        lemma_window(s, pos, e, head.len() as int, e.len() as int);
        assert(e.subrange(head.len() as int, e.len() as int) =~= items_encoding(tail) + seq![
            101u8,
        ]);
        lemma_parse_items(tail, s, pos + head.len(), depth);
        assert(seq![items[0]] + tail =~= items);
    } else {
        assert(items =~= Seq::<Bencode>::empty());
    }
}

proof fn lemma_parse_entries(
    entries: Seq<(Seq<u8>, Bencode)>,
    s: Seq<u8>,
    pos: int,
    depth: nat,
)
    requires
        entries_well_formed(entries, depth),
        0 <= pos,
        pos + entries_encoding(entries).len() + 1 <= s.len(),
        s.subrange(pos, pos + entries_encoding(entries).len() + 1) == entries_encoding(entries)
            + seq![101u8],
    ensures
        parse_entries(s, pos, depth) == Some((entries, pos + entries_encoding(entries).len() + 1)),
    decreases entries,
{
    let e = entries_encoding(entries) + seq![101u8];
    lemma_at(s, pos, e, 0);
    if entries.len() > 0 {
        let key = bytes_encoding(entries[0].0);
        let val = encoding(entries[0].1);
        let tail = entries.subrange(1, entries.len() as int);
        lemma_first_byte(Bencode::Bytes(entries[0].0));
        assert(e[0] == key[0]);
        lemma_window(s, pos, e, 0, key.len() as int);
        assert(e.subrange(0, key.len() as int) =~= key);
        lemma_parse_bytes(entries[0].0, s, pos);
        lemma_window(s, pos, e, key.len() as int, (key.len() + val.len()) as int);
        assert(e.subrange(key.len() as int, (key.len() + val.len()) as int) =~= val);
        lemma_parse_encoding(entries[0].1, s, pos + key.len(), depth);
        lemma_window(s, pos, e, (key.len() + val.len()) as int, e.len() as int);
        assert(e.subrange((key.len() + val.len()) as int, e.len() as int) =~= entries_encoding(tail)
            + seq![101u8]);
        lemma_parse_entries(tail, s, pos + (key.len() + val.len()) as int, depth);
        assert(seq![(entries[0].0, entries[0].1)] + tail =~= entries);
    } else {
        assert(entries =~= Seq::<(Seq<u8>, Bencode)>::empty());
    }
}

/// Decoding the encoding of a well-formed value gives that value back and
/// takes every byte of the encoding.
pub proof fn lemma_round_trip(v: Bencode)
    requires
        well_formed(v, MAX_DEPTH as nat),
    ensures
        decoding(encoding(v)) == Some((v, encoding(v).len() as int)),
{
    let e = encoding(v);
    assert(e.subrange(0, e.len() as int) =~= e);
    lemma_parse_encoding(v, e, 0, MAX_DEPTH as nat);
}


/// A byte string whose declared length exceeds the bytes after its colon
/// does not decode.
pub proof fn lemma_short_byte_string_rejected(n: nat, rest: Seq<u8>)
    requires
        rest.len() < n,
    ensures
        decoding(decimal(n) + seq![58u8] + rest) is None,
{
    let dec = decimal(n);
    let s = dec + seq![58u8] + rest;
    lemma_decimal(n);
    assert forall|k: int| 0 <= k < dec.len() implies is_digit(#[trigger] s[k]) by {
        assert(s[k] == dec[k]);
    }
    assert(s[dec.len() as int] == 58u8);
    lemma_run_exact(s, 0, dec.len() as int);
    assert(s.subrange(0, dec.len() as int) =~= dec);
    assert(is_digit(s[0]));
}

/// A dictionary whose first key does not start as a byte string does not
/// decode.
pub proof fn lemma_non_string_key_rejected(s: Seq<u8>)
    requires
        s.len() >= 2,
        s[0] == 100u8,
        s[1] != 101u8,
        !is_digit(s[1]),
    ensures
        decoding(s) is None,
{
}

/// The value stored under `key` in a dictionary's entries, the first if
/// there are several.
pub open spec fn lookup(entries: Seq<(Seq<u8>, Bencode)>, key: Seq<u8>) -> Option<Bencode>
    decreases entries.len(),
{
    if entries.len() == 0 {
        None
    } else if entries[0].0 == key {
        Some(entries[0].1)
    } else {
        lookup(entries.subrange(1, entries.len() as int), key)
    }
}

/// Finds the value stored under `key`.
pub fn lookup_key<'a>(entries: &'a Vec<(Vec<u8>, BencodeValue)>, key: &[u8]) -> (r: Option<
    &'a BencodeValue,
>)
    ensures
        match r {
            Some(v) => lookup(entries_view(entries@), key@) == Some(v@),
            None => lookup(entries_view(entries@), key@) is None,
        },
{
    proof {
        lemma_entries_view(entries@);
    }
    let ghost all = entries_view(entries@);
    let mut i: usize = 0;
    assert(all.subrange(0, all.len() as int) =~= all);
    while i < entries.len()
        invariant
            0 <= i <= entries.len(),
            all == entries_view(entries@),
            all.len() == entries.len(),
            forall|k: int|
                0 <= k < entries.len() ==> #[trigger] all[k] == (entries[k].0@, entries[k].1@),
            lookup(all, key@) == lookup(all.subrange(i as int, all.len() as int), key@),
        decreases entries.len() - i,
    {
        let ghost rest = all.subrange(i as int, all.len() as int);
        assert(rest.subrange(1, rest.len() as int) =~= all.subrange(i + 1, all.len() as int));
        if bytes_equal(entries[i].0.as_slice(), key) {
            return Some(&entries[i].1);
        }
        i = i + 1;
    }
    None
}

} // verus!
