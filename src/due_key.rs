//! Keys of the due-time index: byte strings whose lexicographic order is the
//! order of (due time, plan, subscriber).
//!
//! Layout: the due time, biased by 2^63 so that it is unsigned, as 8 bytes
//! big-endian; the length of the plan id (16) as 2 bytes big-endian; the plan
//! id as 16 bytes big-endian; then the subscriber's bytes to the end.

use vstd::prelude::*;

verus! {

/// Lexicographic order on byte strings, a proper prefix coming first: the
/// order of `Vec<u8>` and `[u8]`.
pub open spec fn lex_lt(a: Seq<u8>, b: Seq<u8>) -> bool
    decreases a.len(),
{
    if a.len() == 0 {
        b.len() > 0
    } else if b.len() == 0 {
        false
    } else if a[0] != b[0] {
        a[0] < b[0]
    } else {
        lex_lt(a.drop_first(), b.drop_first())
    }
}

pub open spec fn pow256(n: nat) -> nat
    decreases n,
{
    if n == 0 {
        1
    } else {
        256 * pow256((n - 1) as nat)
    }
}

/// The last `n` bytes of `v`, most significant first.
pub open spec fn be_bytes(v: nat, n: nat) -> Seq<u8>
    decreases n,
{
    if n == 0 {
        Seq::<u8>::empty()
    } else {
        be_bytes(v / 256, (n - 1) as nat).push((v % 256) as u8)
    }
}

/// The number that big-endian bytes spell.
pub open spec fn be_value(s: Seq<u8>) -> nat
    decreases s.len(),
{
    if s.len() == 0 {
        0
    } else {
        be_value(s.drop_last()) * 256 + s.last() as nat
    }
}

/// A due time shifted by 2^63 onto the unsigned range.
pub open spec fn biased(t: i64) -> nat {
    (t + 0x8000_0000_0000_0000) as nat
}

/// What an entry of the index holds.
pub struct EntryView {
    pub due_time: i64,
    pub plan_id: u128,
    pub subscriber: Seq<u8>,
}

/// The key of an entry.
pub open spec fn entry_key(e: EntryView) -> Seq<u8> {
    be_bytes(biased(e.due_time), 8) + seq![0u8, 16u8] + be_bytes(e.plan_id as nat, 16)
        + e.subscriber
}

/// The order of entries: by due time, then plan, then subscriber.
pub open spec fn entry_lt(a: EntryView, b: EntryView) -> bool {
    ||| a.due_time < b.due_time
    ||| a.due_time == b.due_time && a.plan_id < b.plan_id
    ||| a.due_time == b.due_time && a.plan_id == b.plan_id && lex_lt(a.subscriber, b.subscriber)
}

/// A byte string laid out as the key of some entry.
pub open spec fn key_shaped(k: Seq<u8>) -> bool {
    k.len() >= 26 && k[8] == 0 && k[9] == 16
}

/// The entry whose key a shaped byte string is.
pub open spec fn key_entry(k: Seq<u8>) -> EntryView {
    EntryView {
        due_time: (be_value(k.subrange(0, 8)) - 0x8000_0000_0000_0000) as i64,
        plan_id: be_value(k.subrange(10, 26)) as u128,
        subscriber: k.skip(26),
    }
}

proof fn lemma_pow256_facts()
    ensures
        pow256(2) == 0x1_0000,
        pow256(8) == 0x1_0000_0000_0000_0000,
        pow256(16) == 0x1_0000_0000_0000_0000_0000_0000_0000_0000,
{
    reveal_with_fuel(pow256, 17);
}

proof fn lemma_be_bytes_len(v: nat, n: nat)
    ensures
        be_bytes(v, n).len() == n,
    decreases n,
{
    if n > 0 {
        lemma_be_bytes_len(v / 256, (n - 1) as nat);
    }
}

proof fn lemma_be_round_trip(v: nat, n: nat)
    requires
        v < pow256(n),
    ensures
        be_value(be_bytes(v, n)) == v,
        be_bytes(v, n).len() == n,
    decreases n,
{
    lemma_be_bytes_len(v, n);
    if n > 0 {
        let p = pow256((n - 1) as nat);
        assert(v / 256 < p) by (nonlinear_arith)
            requires
                v < 256 * p,
        ;
        lemma_be_round_trip(v / 256, (n - 1) as nat);
        assert(be_bytes(v, n).drop_last() == be_bytes(v / 256, (n - 1) as nat));
    }
}

proof fn lemma_be_value_bound(s: Seq<u8>)
    ensures
        be_value(s) < pow256(s.len()),
        be_bytes(be_value(s), s.len()) == s,
    decreases s.len(),
{
    if s.len() > 0 {
        let t = s.drop_last();
        lemma_be_value_bound(t);
        let a = be_value(t);
        let x = s.last() as nat;
        let p = pow256(t.len());
        assert(a * 256 + x < 256 * p) by (nonlinear_arith)
            requires
                a < p,
                x < 256,
        ;
        assert((a * 256 + x) / 256 == a && (a * 256 + x) % 256 == x) by (nonlinear_arith)
            requires
                x < 256,
        ;
        assert(be_bytes(be_value(s), s.len()) =~= s);
    }
}

/// Lexicographic order of two strings with the same first part goes by the
/// rest; with first parts of one length and unequal, by the first parts.
proof fn lemma_lex_concat(a1: Seq<u8>, a2: Seq<u8>, b1: Seq<u8>, b2: Seq<u8>)
    requires
        a1.len() == b1.len(),
    ensures
        lex_lt(a1 + a2, b1 + b2) == (lex_lt(a1, b1) || (a1 == b1 && lex_lt(a2, b2))),
    decreases a1.len(),
{
    if a1.len() == 0 {
        assert(a1 + a2 =~= a2);
        assert(b1 + b2 =~= b2);
        assert(a1 =~= b1);
    } else {
        assert((a1 + a2).drop_first() =~= a1.drop_first() + a2);
        assert((b1 + b2).drop_first() =~= b1.drop_first() + b2);
        lemma_lex_concat(a1.drop_first(), a2, b1.drop_first(), b2);
        if a1[0] == b1[0] && a1.drop_first() == b1.drop_first() {
            assert forall|i: int| 0 <= i < a1.len() implies a1[i] == b1[i] by {
                if i > 0 {
                    assert(a1[i] == a1.drop_first()[i - 1]);
                    assert(b1[i] == b1.drop_first()[i - 1]);
                }
            }
            assert(a1 =~= b1);
        }
        if a1 == b1 {
            assert(a1.drop_first() == b1.drop_first());
        }
    }
}

/// For strings of one length, lexicographic order is the order of the numbers
/// that they spell big-endian.
proof fn lemma_lex_be(s: Seq<u8>, t: Seq<u8>)
    requires
        s.len() == t.len(),
    ensures
        lex_lt(s, t) == (be_value(s) < be_value(t)),
        (s == t) == (be_value(s) == be_value(t)),
    decreases s.len(),
{
    if s.len() == 0 {
        assert(s =~= t);
    } else {
        let s1 = s.drop_last();
        let t1 = t.drop_last();
        lemma_lex_be(s1, t1);
        assert(s =~= s1 + seq![s.last()]);
        assert(t =~= t1 + seq![t.last()]);
        lemma_lex_concat(s1, seq![s.last()], t1, seq![t.last()]);
        assert(seq![s.last()].drop_first() =~= Seq::<u8>::empty());
        assert(seq![t.last()].drop_first() =~= Seq::<u8>::empty());
        assert(lex_lt(seq![s.last()], seq![t.last()]) == (s.last() < t.last())) by {
            reveal_with_fuel(lex_lt, 2);
        }
        let a = be_value(s1);
        let b = be_value(t1);
        let x = s.last() as nat;
        let y = t.last() as nat;
        assert((a * 256 + x < b * 256 + y) == (a < b || (a == b && x < y))) by (nonlinear_arith)
            requires
                x < 256,
                y < 256,
        ;
        assert((a * 256 + x == b * 256 + y) == (a == b && x == y)) by (nonlinear_arith)
            requires
                x < 256,
                y < 256,
        ;
        if s1 == t1 && x == y {
            assert(s =~= t);
        }
    }
}

proof fn lemma_lex_irreflexive(s: Seq<u8>)
    ensures
        !lex_lt(s, s),
    decreases s.len(),
{
    if s.len() > 0 {
        lemma_lex_irreflexive(s.drop_first());
    }
}

/// No entry comes before itself.
pub proof fn lemma_entry_lt_irreflexive(a: EntryView)
    ensures
        !entry_lt(a, a),
{
    lemma_lex_irreflexive(a.subscriber);
}

/// The strings from `a` followed by a zero byte on are those after `a`.
pub proof fn lemma_successor_bound(a: Seq<u8>, b: Seq<u8>)
    ensures
        !lex_lt(b, a.push(0u8)) == lex_lt(a, b),
    decreases a.len(),
{
    if a.len() == 0 {
        assert(a.push(0u8) =~= seq![0u8]);
        if b.len() > 0 && b[0] == 0 {
            assert(seq![0u8].drop_first() =~= Seq::<u8>::empty());
            lemma_lex_empty(b.drop_first());
            assert(!lex_lt(b, seq![0u8]));
        }
        assert(lex_lt(a, b) == (b.len() > 0));
    } else if b.len() > 0 {
        let a0 = a.push(0u8);
        assert(a0.drop_first() =~= a.drop_first().push(0u8));
        assert(a0[0] == a[0]);
        lemma_successor_bound(a.drop_first(), b.drop_first());
        if b[0] == a[0] {
            assert(lex_lt(b, a0) == lex_lt(b.drop_first(), a0.drop_first()));
            assert(lex_lt(a, b) == lex_lt(a.drop_first(), b.drop_first()));
        }
    }
}

proof fn lemma_lex_empty(s: Seq<u8>)
    ensures
        !lex_lt(s, Seq::<u8>::empty()),
{
}

/// The key of an entry is shaped, and spells the entry back.
pub proof fn lemma_entry_key_shape(e: EntryView)
    ensures
        key_shaped(entry_key(e)),
        key_entry(entry_key(e)) == e,
        entry_key(e).subrange(0, 8) == be_bytes(biased(e.due_time), 8),
{
    lemma_pow256_facts();
    let t = be_bytes(biased(e.due_time), 8);
    let p = be_bytes(e.plan_id as nat, 16);
    lemma_be_round_trip(biased(e.due_time), 8);
    lemma_be_round_trip(e.plan_id as nat, 16);
    let k = entry_key(e);
    assert(k.subrange(0, 8) =~= t);
    assert(k.subrange(10, 26) =~= p);
    assert(k.skip(26) =~= e.subscriber);
    assert(key_entry(k) =~= e);
}

/// A shaped byte string is the key of the entry that it spells.
pub proof fn lemma_shaped_key(k: Seq<u8>)
    requires
        key_shaped(k),
    ensures
        entry_key(key_entry(k)) == k,
{
    lemma_pow256_facts();
    let t = k.subrange(0, 8);
    let p = k.subrange(10, 26);
    lemma_be_value_bound(t);
    lemma_be_value_bound(p);
    let e = key_entry(k);
    assert(biased(e.due_time) == be_value(t));
    assert(e.plan_id as nat == be_value(p));
    assert(entry_key(e) =~= k);
}

/// Keys are ordered as their entries are.
pub proof fn lemma_key_order(a: EntryView, b: EntryView)
    ensures
        lex_lt(entry_key(a), entry_key(b)) == entry_lt(a, b),
        (entry_key(a) == entry_key(b)) == (a == b),
{
    lemma_pow256_facts();
    let ta = be_bytes(biased(a.due_time), 8);
    let tb = be_bytes(biased(b.due_time), 8);
    let pa = be_bytes(a.plan_id as nat, 16);
    let pb = be_bytes(b.plan_id as nat, 16);
    let sep = seq![0u8, 16u8];
    lemma_be_round_trip(biased(a.due_time), 8);
    lemma_be_round_trip(biased(b.due_time), 8);
    lemma_be_round_trip(a.plan_id as nat, 16);
    lemma_be_round_trip(b.plan_id as nat, 16);
    lemma_lex_be(ta, tb);
    lemma_lex_be(pa, pb);
    lemma_lex_irreflexive(sep);
    assert(entry_key(a) =~= ta + (sep + (pa + a.subscriber)));
    assert(entry_key(b) =~= tb + (sep + (pb + b.subscriber)));
    lemma_lex_concat(ta, sep + (pa + a.subscriber), tb, sep + (pb + b.subscriber));
    lemma_lex_concat(sep, pa + a.subscriber, sep, pb + b.subscriber);
    lemma_lex_concat(pa, a.subscriber, pb, b.subscriber);
    lemma_entry_key_shape(a);
    lemma_entry_key_shape(b);
}

/// A key is below the bound of due time `t` exactly when its entry is due
/// before `t`.
pub proof fn lemma_key_below(e: EntryView, t: i64)
    ensures
        lex_lt(entry_key(e), be_bytes(biased(t), 8)) == (e.due_time < t),
{
    lemma_pow256_facts();
    let te = be_bytes(biased(e.due_time), 8);
    let tt = be_bytes(biased(t), 8);
    lemma_be_round_trip(biased(e.due_time), 8);
    lemma_be_round_trip(biased(t), 8);
    lemma_lex_be(te, tt);
    let rest = seq![0u8, 16u8] + be_bytes(e.plan_id as nat, 16) + e.subscriber;
    assert(entry_key(e) =~= te + rest);
    assert(tt =~= tt + Seq::<u8>::empty());
    lemma_lex_concat(te, rest, tt, Seq::<u8>::empty());
    lemma_lex_empty(rest);
}

/// Appends the last `n` bytes of `v`, most significant first.
fn push_be(out: &mut Vec<u8>, v: u128, n: usize)
    requires
        n <= 16,
    ensures
        final(out)@ == old(out)@ + be_bytes(v as nat, n as nat),
    decreases n,
{
    if n > 0 {
        push_be(out, v / 256, n - 1);
        out.push((v % 256) as u8);
        assert(be_bytes(v as nat, n as nat) == be_bytes((v / 256) as nat, (n - 1) as nat).push(
            (v % 256) as u8,
        ));
        assert(final(out)@ =~= old(out)@ + be_bytes(v as nat, n as nat));
    } else {
        assert(final(out)@ =~= old(out)@ + be_bytes(v as nat, n as nat));
    }
}

/// The first 8 bytes of the keys of entries due at `t`.
pub fn time_prefix(t: i64) -> (r: Vec<u8>)
    ensures
        r@ == be_bytes(biased(t), 8),
{
    let mut out: Vec<u8> = Vec::new();
    push_be(&mut out, (t as i128 + 0x8000_0000_0000_0000i128) as u128, 8);
    assert(out@ =~= be_bytes(biased(t), 8));
    out
}

/// The key of the entry due at `due_time` for `subscriber` of plan `plan_id`.
pub fn encode_key(due_time: i64, plan_id: u128, subscriber: &[u8]) -> (r: Vec<u8>)
    ensures
        r@ == entry_key(EntryView { due_time, plan_id, subscriber: subscriber@ }),
{
    let mut out = time_prefix(due_time);
    out.push(0u8);
    out.push(16u8);
    push_be(&mut out, plan_id, 16);
    let mut i: usize = 0;
    let ghost head = out@;
    while i < subscriber.len()
        invariant
            i <= subscriber@.len(),
            out@ == head + subscriber@.take(i as int),
        decreases subscriber@.len() - i,
    {
        out.push(subscriber[i]);
        assert(subscriber@.take(i + 1) =~= subscriber@.take(i as int).push(subscriber@[i as int]));
        assert(out@ =~= head + subscriber@.take(i + 1));
        i = i + 1;
    }
    assert(subscriber@.take(i as int) =~= subscriber@);
    assert(out@ =~= entry_key(EntryView { due_time, plan_id, subscriber: subscriber@ }));
    out
}

/// An entry of the index: `subscriber` of plan `plan_id` is due at
/// `due_time` (seconds since 1970-01-01T00:00:00 UTC).
#[derive(Clone, Debug, PartialEq, Eq)]
pub struct DueEntry {
    pub due_time: i64,
    pub plan_id: u128,
    pub subscriber: Vec<u8>,
}

impl View for DueEntry {
    type V = EntryView;

    open spec fn view(&self) -> EntryView {
        EntryView { due_time: self.due_time, plan_id: self.plan_id, subscriber: self.subscriber@ }
    }
}

impl DueEntry {
    /// The key of the entry.
    pub fn key(&self) -> (r: Vec<u8>)
        ensures
            r@ == entry_key(self@),
    {
        encode_key(self.due_time, self.plan_id, self.subscriber.as_slice())
    }
}

/// The length that a length-prefixed segment announces in its first two bytes.
pub open spec fn segment_len(buf: Seq<u8>) -> int {
    buf[0] * 256 + buf[1]
}

/// Splits off a segment prefixed by its length as 2 bytes big-endian: the
/// segment and what follows it, none when `buf` is shorter than announced.
pub fn decode_key_step(buf: &[u8]) -> (r: Option<(&[u8], &[u8])>)
    ensures
        r is Some <==> buf@.len() >= 2 && buf@.len() >= 2 + segment_len(buf@),
        r matches Some((seg, rest)) ==> seg@ == buf@.subrange(2, 2 + segment_len(buf@))
            && rest@ == buf@.skip(2 + segment_len(buf@)),
{
    if buf.len() < 2 {
        return None;
    }
    let end = (buf[0] as usize) * 256 + buf[1] as usize + 2;
    if buf.len() < end {
        return None;
    }
    let (head, rest) = buf.split_at(end);
    let (_, seg) = head.split_at(2);
    assert(seg@ =~= buf@.subrange(2, 2 + segment_len(buf@)));
    assert(rest@ =~= buf@.skip(2 + segment_len(buf@)));
    Some((seg, rest))
}

/// The number that at most 16 big-endian bytes spell.
fn read_be(bytes: &[u8]) -> (r: u128)
    requires
        bytes@.len() <= 16,
    ensures
        r == be_value(bytes@),
{
    let mut acc: u128 = 0;
    let mut i: usize = 0;
    assert(bytes@.take(0) =~= Seq::<u8>::empty());
    while i < bytes.len()
        invariant
            i <= bytes@.len() <= 16,
            acc == be_value(bytes@.take(i as int)),
        decreases bytes@.len() - i,
    {
        let ghost next = bytes@.take(i + 1);
        assert(next.drop_last() =~= bytes@.take(i as int));
        proof {
            lemma_be_value_bound(next);
            lemma_pow256_facts();
            lemma_pow256_mono((i + 1) as nat, 16);
        }
        acc = acc * 256 + bytes[i] as u128;
        i = i + 1;
    }
    assert(bytes@.take(i as int) =~= bytes@);
    acc
}

proof fn lemma_pow256_mono(a: nat, b: nat)
    requires
        a <= b,
    ensures
        pow256(a) <= pow256(b),
    decreases b,
{
    if a < b {
        lemma_pow256_mono(a, (b - 1) as nat);
    }
}

/// The entry whose key `k` is, none when `k` is not laid out as a key.
pub fn decode_key(k: &[u8]) -> (r: Option<DueEntry>)
    ensures
        r is Some <==> key_shaped(k@),
        r matches Some(e) ==> e@ == key_entry(k@),
{
    if k.len() < 8 {
        return None;
    }
    let (time, rest) = k.split_at(8);
    let (plan, subscriber) = match decode_key_step(rest) {
        Some(p) => p,
        None => return None,
    };
    if plan.len() != 16 {
        return None;
    }
    assert(rest@[0] == k@[8] && rest@[1] == k@[9]);
    assert(time@ =~= k@.subrange(0, 8));
    assert(plan@ =~= k@.subrange(10, 26));
    assert(subscriber@ =~= k@.skip(26));
    proof {
        lemma_be_value_bound(time@);
        lemma_pow256_facts();
    }
    let biased_time = read_be(time);
    let plan_id = read_be(plan);
    let due_time = (biased_time as i128 - 0x8000_0000_0000_0000i128) as i64;
    Some(DueEntry { due_time, plan_id, subscriber: copy_bytes(subscriber) })
}

/// A vector holding the bytes of `s`.
pub fn copy_bytes(s: &[u8]) -> (r: Vec<u8>)
    ensures
        r@ == s@,
{
    let mut out: Vec<u8> = Vec::new();
    let mut i: usize = 0;
    while i < s.len()
        invariant
            i <= s@.len(),
            out@ == s@.take(i as int),
        decreases s@.len() - i,
    {
        out.push(s[i]);
        assert(s@.take(i + 1) =~= s@.take(i as int).push(s@[i as int]));
        i = i + 1;
    }
    assert(s@.take(i as int) =~= s@);
    out
}

} // verus!
