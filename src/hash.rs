use vstd::prelude::*;

use crate::codec::{decode_spec, encodable, encode_spec, lemma_remove_shrinks, lemma_round_trip};
use crate::entry::{
    dir_wf, is_live, live_total, placement_free, put_place, reserved_end, slot_spec, without, Entry, SubBucketer,
};
use crate::helpers::{exp2, lemma_exp2_pos, lemma_next_pow2, lemma_next_pow2_monotonic, next_pow2};
use crate::layout::{MAX_DATA_SIZE, MAX_SUB_BUCKETS, SUB_BUCKET_HEADER_SIZE};
use crate::record::{keys_unique, lookup, pairs_remove, pairs_set, Record};
use crate::StoreError;

verus! {

/// Slots per block: the sub-buckets that one block holds.
pub const SUB_BUCKET: u64 = 256;

/// The table stops splitting at this level: the 32-bit hash has no bits left
/// to tell more blocks apart.
pub const MAX_LEVEL: u8 = 24;

/// A block whose live payload exceeds this many bytes is split after a write:
/// half the payload region, so that rounding payloads up to their size class
/// alone cannot fill a block before it splits.
pub const GROWTH_THRESHOLD: u32 = 1016;

/// The hash of a key, as std's SipHash with zero keys computes it over the
/// key's `Hash` impl, cut to 32 bits.
pub uninterp spec fn key_hash(key: Seq<char>) -> u32;

/// Relies on std's `BuildHasher::hash_one` with a default `SipHasher`: both
/// keys are zero, so the result depends on the key alone.
#[verifier::external_body]
#[allow(deprecated)]
fn hash_key(key: &str) -> (r: u32)
    ensures
        r == key_hash(key@),
{
    std::hash::BuildHasher::hash_one(&std::hash::BuildHasherDefault::<std::hash::SipHasher>::default(), key) as u32
}

/// The sub-bucket that hash `h` selects in a table at `level` whose next
/// block to split is `split`. Sub-buckets are numbered across blocks, 256 per
/// block. A hash first takes `level + 1` doubling rounds' worth of bits; if
/// that sub-bucket lies past the blocks that exist, it takes one round fewer.
pub open spec fn address(h: u32, level: nat, split: nat) -> int {
    let m = SUB_BUCKET * exp2(level);
    let a = h as int % (2 * m);
    if a < SUB_BUCKET * (exp2(level) + split) {
        a
    } else {
        h as int % m
    }
}

/// Every hash value lands in exactly one sub-bucket, and that sub-bucket
/// belongs to one of the `2^level + split` blocks.
pub proof fn lemma_total_coverage(h: u32, level: nat, split: nat)
    requires
        split < exp2(level),
    ensures
        0 <= address(h, level, split) < SUB_BUCKET * (exp2(level) + split),
        0 <= address(h, level, split) / (SUB_BUCKET as int) < exp2(level) + split,
        0 <= address(h, level, split) % (SUB_BUCKET as int) < SUB_BUCKET,
{
    lemma_exp2_pos(level);
    let m = SUB_BUCKET * exp2(level);
    assert(m > 0) by (nonlinear_arith)
        requires
            m == SUB_BUCKET * exp2(level),
            exp2(level) >= 1,
    ;
    assert(SUB_BUCKET * (exp2(level) + split) == m + SUB_BUCKET * split) by (nonlinear_arith)
        requires
            m == SUB_BUCKET * exp2(level),
    ;
    assert(SUB_BUCKET * split >= 0) by (nonlinear_arith);
    let a = address(h, level, split);
    assert(a / 256 < exp2(level) + split) by (nonlinear_arith)
        requires
            0 <= a < 256 * (exp2(level) + split),
    ;
}


/// A live slot holds the canonical encoding of a record that decodes.
pub open spec fn slot_ok(blk: SubBucketer, j: int) -> bool {
    is_live(blk.dir()[j]) ==> match decode_spec(blk.payload(j)) {
        Some(s) => blk.payload(j) == encode_spec(s) && encodable(s),
        None => false,
    }
}

/// In a well-formed block, a slot that holds a decodable record reads back.
pub proof fn lemma_slot_ok(blk: SubBucketer, j: int)
    requires
        blk.wf(),
        0 <= j < MAX_SUB_BUCKETS,
        slot_ok(blk, j),
    ensures
        slot_spec(blk, j) is Some,
        is_live(blk.dir()[j]) ==> slot_spec(blk, j) == Some(Some(decode_spec(blk.payload(j))->0)),
        is_live(blk.dir()[j]) ==> keys_unique(decode_spec(blk.payload(j))->0),
{
    let e = blk.dir()[j];
    if is_live(e) {
        lemma_next_pow2(e.size as nat);
    }
}

/// A slot whose entry and, if live, payload are unchanged reads back the same.
pub proof fn lemma_slot_kept(a: SubBucketer, b: SubBucketer, j: int)
    requires
        0 <= j < MAX_SUB_BUCKETS,
        a.dir()[j] == b.dir()[j],
        is_live(a.dir()[j]) ==> a.payload(j) == b.payload(j),
    ensures
        slot_spec(a, j) == slot_spec(b, j),
        slot_ok(a, j) == slot_ok(b, j),
{
}

/// Writing the encoding of `s` into a slot makes it read back `s`.
pub proof fn lemma_slot_written(blk: SubBucketer, j: int, s: Seq<(Seq<char>, Seq<char>)>)
    requires
        blk.wf(),
        0 <= j < MAX_SUB_BUCKETS,
        encodable(s),
        keys_unique(s),
        blk.payload(j) == encode_spec(s),
        blk.dir()[j].size == encode_spec(s).len(),
    ensures
        slot_ok(blk, j),
        slot_spec(blk, j) == Some(Some(s)),
{
    lemma_round_trip(s);
    let e = blk.dir()[j];
    assert(is_live(e));
    lemma_next_pow2(e.size as nat);
}


/// A write to one slot of one block leaves the table well formed and the
/// value of every key that addresses another slot unchanged.
proof fn lemma_table_after_write(before: Hash, after: Hash, b: int, j: int)
    requires
        before.wf(),
        0 <= b < before.spec_blocks().len(),
        0 <= j < MAX_SUB_BUCKETS,
        after.spec_level() == before.spec_level(),
        after.spec_split() == before.spec_split(),
        after.spec_blocks().len() == before.spec_blocks().len(),
        forall|c: int| 0 <= c < before.spec_blocks().len() && c != b ==> #[trigger] after.spec_blocks()[c] == before.spec_blocks()[c],
        after.spec_blocks()[b].wf(),
        slot_ok(after.spec_blocks()[b], j),
        forall|i: int|
            0 <= i < MAX_SUB_BUCKETS && i != j ==> #[trigger] after.spec_blocks()[b].dir()[i] == before.spec_blocks()[b].dir()[i],
        forall|i: int|
            0 <= i < MAX_SUB_BUCKETS && i != j && is_live(before.spec_blocks()[b].dir()[i])
                ==> #[trigger] after.spec_blocks()[b].payload(i) == before.spec_blocks()[b].payload(i),
        forall|x: (Seq<char>, Seq<char>)|
            #[trigger] after.slot_pairs(b, j).contains(x) ==> address(
                key_hash(x.0),
                before.spec_level() as nat,
                before.spec_split() as nat,
            ) == b * 256 + j,
    ensures
        after.wf_shape(),
        table_total(after.spec_blocks(), after.spec_blocks().len() as int) == before.spec_count()
            - before.slot_pairs(b, j).len() + after.slot_pairs(b, j).len(),
        forall|k: Seq<char>| #[trigger] after.slot_of(k) == before.slot_of(k),
        forall|k: Seq<char>| after.slot_of(k) != (b, j) ==> #[trigger] after.lookup_key(k) == before.lookup_key(k),
{
    let nb = after.spec_blocks()[b];
    let ob = before.spec_blocks()[b];
    let len = before.spec_blocks().len() as int;
    assert forall|c: int, i: int| 0 <= c < after.spec_blocks().len() && 0 <= i < MAX_SUB_BUCKETS implies #[trigger] slot_ok(
        after.spec_blocks()[c],
        i,
    ) by {
        if c == b && i != j {
            lemma_slot_kept(nb, ob, i);
        }
    }
    assert forall|c: int| 0 <= c < after.spec_blocks().len() implies (#[trigger] after.spec_blocks()[c]).wf() by {}
    assert forall|k: Seq<char>| after.slot_of(k) != (b, j) implies #[trigger] after.lookup_key(k) == before.lookup_key(k) by {
        let (c, i) = before.slot_of(k);
        lemma_total_coverage(key_hash(k), before.spec_level() as nat, before.spec_split() as nat);
        if c == b {
            lemma_slot_kept(nb, ob, i);
        }
    }
    lemma_placed_after_write(before, after, b, j);
    lemma_total_after_write(before, after, b, j);
}

/// Level and split pointer after one more block splits.
pub open spec fn advance(level: nat, split: nat) -> (nat, nat) {
    if split + 1 == exp2(level) {
        (level + 1, 0)
    } else {
        (level, split + 1)
    }
}

/// Splitting block `split` moves a hash's sub-bucket only if it lay in that
/// block, and then to the same slot of the new block `split + 2^level`.
pub proof fn lemma_split_address(h: u32, level: nat, split: nat)
    requires
        split < exp2(level),
    ensures
        ({
            let a = address(h, level, split);
            let a2 = address(h, advance(level, split).0, advance(level, split).1);
            a2 == a || (a / 256 == split && a2 / 256 == split + exp2(level) && a2 % 256 == a % 256)
        }),
{
    let e = exp2(level);
    lemma_exp2_pos(level);
    let m: int = 256 * (e as int);
    assert(SUB_BUCKET * exp2(level) == m);
    let a1 = h as int % (2 * m);
    let a = address(h, level, split);
    let (nl, ns) = advance(level, split);
    let a2 = address(h, nl, ns);
    assert(m > 0);
    vstd::arithmetic::div_mod::lemma_mod_mod(h as int, m, 2);
    assert(m * 2 == 2 * m);
    assert(a1 % m == h as int % m);
    assert(0 <= a1 < 2 * m) by {
        vstd::arithmetic::div_mod::lemma_mod_bound(h as int, 2 * m);
    }
    if split + 1 == e {
        assert(exp2(nl) == 2 * e);
        let b1 = h as int % (4 * m);
        vstd::arithmetic::div_mod::lemma_mod_mod(h as int, 2 * m, 2);
        assert((2 * m) * 2 == 4 * m);
        assert(0 <= b1 < 4 * m) by {
            vstd::arithmetic::div_mod::lemma_mod_bound(h as int, 4 * m);
        }
        if b1 < 2 * m {
            vstd::arithmetic::div_mod::lemma_small_mod(b1 as nat, (2 * m) as nat);
        }
        assert(a2 == a1);
    } else {
        assert(nl == level && ns == split + 1);
    }
    if a2 != a {
        // Only sub-buckets in [m + 256 * split, m + 256 * split + 256) change.
        assert(m + 256 * split <= a1 < m + 256 * split + 256);
        vstd::arithmetic::div_mod::lemma_fundamental_div_mod_converse(a1, m, 1, a1 - m);
        assert(a == a1 - m);
        assert(a2 == a1);
        vstd::arithmetic::div_mod::lemma_fundamental_div_mod_converse(a, 256, split as int, a - 256 * split);
        vstd::arithmetic::div_mod::lemma_fundamental_div_mod_converse(
            a2,
            256,
            (split + e) as int,
            a - 256 * split,
        );
    }
}

/// The pairs of `s` whose keys address block `blk` at (`level`, `split`), in
/// order.
pub open spec fn keep_where(s: Seq<(Seq<char>, Seq<char>)>, level: nat, split: nat, blk: int) -> Seq<
    (Seq<char>, Seq<char>),
>
    decreases s.len(),
{
    if s.len() == 0 {
        s
    } else {
        let r = keep_where(s.drop_last(), level, split, blk);
        if address(key_hash(s.last().0), level, split) / 256 == blk {
            r.push(s.last())
        } else {
            r
        }
    }
}

/// What `keep_where` keeps: the pairs of `s` whose keys address `blk`. It
/// never lengthens the encoding and keeps it encodable and keys distinct.
pub proof fn lemma_keep_where(s: Seq<(Seq<char>, Seq<char>)>, level: nat, split: nat, blk: int)
    ensures
        forall|x: (Seq<char>, Seq<char>)|
            #[trigger] keep_where(s, level, split, blk).contains(x) <==> s.contains(x) && address(
                key_hash(x.0),
                level,
                split,
            ) / 256 == blk,
        keep_where(s, level, split, blk).len() <= s.len(),
        encodable(s) ==> encodable(keep_where(s, level, split, blk)),
        crate::codec::pairs_bytes(keep_where(s, level, split, blk)).len() <= crate::codec::pairs_bytes(s).len(),
        keys_unique(s) ==> keys_unique(keep_where(s, level, split, blk)),
    decreases s.len(),
{
    let r = keep_where(s, level, split, blk);
    if s.len() > 0 {
        let t = s.drop_last();
        let rt = keep_where(t, level, split, blk);
        lemma_keep_where(t, level, split, blk);
        assert forall|x: (Seq<char>, Seq<char>)| #[trigger] r.contains(x) <==> s.contains(x) && address(
            key_hash(x.0),
            level,
            split,
        ) / 256 == blk by {
            if s.contains(x) && x != s.last() {
                let i = choose|i: int| 0 <= i < s.len() && s[i] == x;
                assert(t[i] == x);
            }
            if t.contains(x) {
                let i = choose|i: int| 0 <= i < t.len() && t[i] == x;
                assert(s[i] == x);
            }
            if rt.contains(x) && r == rt.push(s.last()) {
                let i = choose|i: int| 0 <= i < rt.len() && rt[i] == x;
                assert(r[i] == x);
            }
            if r.contains(x) && r == rt.push(s.last()) && x != s.last() {
                let i = choose|i: int| 0 <= i < r.len() && r[i] == x;
                assert(rt[i] == x);
            }
            if x == s.last() && r == rt.push(s.last()) {
                assert(r[rt.len() as int] == x);
            }
            assert(s[s.len() - 1] == s.last());
        }
        if encodable(s) {
            assert(encodable(t)) by {
                assert forall|i: int| 0 <= i < t.len() implies crate::codec::utf8((#[trigger] t[i]).0).len() <= 0xffff
                    && crate::codec::utf8(t[i].1).len() <= 0xffff by {
                    assert(t[i] == s[i]);
                }
            }
            assert(encodable(r)) by {
                assert forall|i: int| 0 <= i < r.len() implies crate::codec::utf8((#[trigger] r[i]).0).len() <= 0xffff
                    && crate::codec::utf8(r[i].1).len() <= 0xffff by {
                    if i < rt.len() {
                        assert(r[i] == rt[i]);
                    } else {
                        assert(r[i] == s[s.len() - 1]);
                    }
                }
            }
        }
        if r.len() > 0 && r == rt.push(s.last()) {
            assert(r.drop_last() =~= rt);
        }
        if keys_unique(s) {
            assert(keys_unique(t)) by {
                assert forall|a: int, b: int| 0 <= a < t.len() && 0 <= b < t.len() && a != b implies #[trigger] t[a].0
                    != #[trigger] t[b].0 by {
                    assert(t[a] == s[a] && t[b] == s[b]);
                }
            }
            if r == rt.push(s.last()) {
                assert forall|a: int, b: int| 0 <= a < r.len() && 0 <= b < r.len() && a != b implies #[trigger] r[a].0
                    != #[trigger] r[b].0 by {
                    if a < rt.len() && b < rt.len() {
                        assert(r[a] == rt[a] && r[b] == rt[b]);
                    } else {
                        let (x, y) = if a < rt.len() { (a, b) } else { (b, a) };
                        if x < rt.len() {
                            assert(rt.contains(rt[x]));
                            let i = choose|i: int| 0 <= i < t.len() && t[i] == rt[x];
                            assert(s[i] == rt[x]);
                            assert(s[s.len() - 1] == s.last());
                        }
                    }
                }
            }
        }
    }
}

/// With distinct keys, a pair is found by `lookup` exactly when it is there.
proof fn lemma_lookup_contains(s: Seq<(Seq<char>, Seq<char>)>, k: Seq<char>)
    requires
        keys_unique(s),
    ensures
        lookup(s, k) is None <==> forall|x: (Seq<char>, Seq<char>)| #[trigger] s.contains(x) ==> x.0 != k,
        forall|x: (Seq<char>, Seq<char>)| #[trigger] s.contains(x) && x.0 == k ==> lookup(s, k) == Some(x.1),
{
    crate::record::lemma_lookup_some(s, k);
    assert forall|x: (Seq<char>, Seq<char>)| #[trigger] s.contains(x) && x.0 == k implies lookup(s, k) == Some(x.1) by {
        let i = choose|i: int| 0 <= i < s.len() && s[i] == x;
        crate::record::lemma_lookup_unique(s, i);
    }
    if lookup(s, k) is Some {
        let i = choose|i: int| 0 <= i < s.len() && #[trigger] s[i].0 == k;
        assert(s.contains(s[i]));
    }
}

/// Keeping the pairs that address a block keeps the value of each key that
/// addresses it, and drops every other key.
proof fn lemma_keep_lookup(s: Seq<(Seq<char>, Seq<char>)>, level: nat, split: nat, blk: int, k: Seq<char>)
    requires
        keys_unique(s),
    ensures
        lookup(keep_where(s, level, split, blk), k) == if address(key_hash(k), level, split) / 256 == blk {
            lookup(s, k)
        } else {
            None
        },
{
    let r = keep_where(s, level, split, blk);
    lemma_keep_where(s, level, split, blk);
    lemma_lookup_contains(s, k);
    lemma_lookup_contains(r, k);
    if address(key_hash(k), level, split) / 256 == blk {
        if lookup(s, k) is Some {
            crate::record::lemma_lookup_some(s, k);
            let i = choose|i: int| 0 <= i < s.len() && #[trigger] s[i].0 == k && s[i].1 == lookup(s, k)->0;
            assert(s.contains(s[i]));
            assert(r.contains(s[i]));
        } else {
            assert forall|x: (Seq<char>, Seq<char>)| #[trigger] r.contains(x) implies x.0 != k by {
                assert(s.contains(x));
            }
        }
    } else {
        assert forall|x: (Seq<char>, Seq<char>)| #[trigger] r.contains(x) implies x.0 != k by {}
    }
}

/// The pairs that slot `j` of a block holds; none when it is empty or
/// corrupt.
pub open spec fn block_pairs(blk: SubBucketer, j: int) -> Seq<(Seq<char>, Seq<char>)> {
    match slot_spec(blk, j) {
        Some(Some(s)) => s,
        _ => seq![],
    }
}

/// Two to the power `level`, for levels the table can reach.
fn exp2_exec(level: u8) -> (r: u64)
    requires
        level <= MAX_LEVEL,
    ensures
        r == exp2(level as nat),
        r <= 0x1000000,
{
    let mut r: u64 = 1;
    let mut k: u8 = 0;
    while k < level
        invariant
            k <= level <= MAX_LEVEL,
            r == exp2(k as nat),
        decreases level - k,
    {
        proof {
            assert(exp2((k + 1) as nat) == 2 * exp2(k as nat));
            lemma_exp2_le(k as nat);
        }
        r = r * 2;
        k += 1;
    }
    proof {
        lemma_exp2_le(level as nat);
    }
    r
}

/// The sub-bucket that hash `h` selects at (`level`, `split`), as (block
/// index, slot index).
fn address_in(h: u32, level: u8, split: u32) -> (r: (usize, u8))
    requires
        level <= MAX_LEVEL,
        split < exp2(level as nat),
    ensures
        r.0 == address(h, level as nat, split as nat) / (SUB_BUCKET as int),
        r.1 == address(h, level as nat, split as nat) % (SUB_BUCKET as int),
        r.0 < exp2(level as nat) + split,
{
    let e = exp2_exec(level);
    let span = SUB_BUCKET * e;
    proof {
        lemma_exp2_pos(level as nat);
        lemma_total_coverage(h, level as nat, split as nat);
    }
    let a0 = (h as u64) % (2 * span);
    let a = if a0 < span + SUB_BUCKET * (split as u64) {
        a0
    } else {
        (h as u64) % span
    };
    assert(SUB_BUCKET * (exp2(level as nat) + split) == span + SUB_BUCKET * split) by (nonlinear_arith)
        requires
            span == SUB_BUCKET * exp2(level as nat),
    ;
    ((a / SUB_BUCKET) as usize, (a % SUB_BUCKET) as u8)
}

/// The pairs of `rec` whose keys address block `blk` at (`level`, `split`).
fn keep(rec: &Record, level: u8, split: u32, blk: usize) -> (r: Record)
    requires
        rec.wf(),
        level <= MAX_LEVEL,
        split < exp2(level as nat),
    ensures
        r.wf(),
        r@ == keep_where(rec@, level as nat, split as nat, blk as int),
{
    let mut out = Record::new();
    let n = rec.len();
    let mut i: usize = 0;
    proof {
        assert(rec@.subrange(0, 0) =~= Seq::<(Seq<char>, Seq<char>)>::empty());
    }
    while i < n
        invariant
            rec.wf(),
            n == rec@.len(),
            i <= n,
            level <= MAX_LEVEL,
            split < exp2(level as nat),
            out.wf(),
            out@ == keep_where(rec@.subrange(0, i as int), level as nat, split as nat, blk as int),
        decreases n - i,
    {
        let key = rec.key_at(i);
        let h = hash_key(key.as_str());
        let (b, _) = address_in(h, level, split);
        let ghost pre = rec@.subrange(0, i as int);
        let ghost next = rec@.subrange(0, i + 1);
        assert(next.drop_last() =~= pre);
        assert(next.last() == rec@[i as int]);
        if b == blk {
            proof {
                lemma_keep_where(pre, level as nat, split as nat, blk as int);
                assert forall|x: (Seq<char>, Seq<char>)| #[trigger] out@.contains(x) implies x.0 != key@ by {
                    assert(pre.contains(x));
                    let m = choose|m: int| 0 <= m < pre.len() && pre[m] == x;
                    assert(rec@[m] == x);
                }
                lemma_lookup_contains(out@, key@);
            }
            out.push_new(key.clone(), rec.value_at(i).clone());
        }
        i += 1;
    }
    assert(rec@.subrange(0, n as int) =~= rec@);
    out
}


/// Slots other than `j` read back the same in both blocks when their entries
/// and live payloads agree.
proof fn lemma_slots_kept_except(a: SubBucketer, b: SubBucketer, j: int)
    requires
        forall|i: int| 0 <= i < MAX_SUB_BUCKETS && i != j ==> #[trigger] a.dir()[i] == b.dir()[i],
        forall|i: int|
            0 <= i < MAX_SUB_BUCKETS && i != j && is_live(b.dir()[i]) ==> #[trigger] a.payload(i) == b.payload(i),
    ensures
        forall|i: int| 0 <= i < MAX_SUB_BUCKETS && i != j ==> #[trigger] block_pairs(a, i) == block_pairs(b, i),
        forall|i: int| 0 <= i < MAX_SUB_BUCKETS && i != j ==> #[trigger] slot_ok(a, i) == slot_ok(b, i),
{
    assert forall|i: int| 0 <= i < MAX_SUB_BUCKETS && i != j implies #[trigger] block_pairs(a, i) == block_pairs(b, i)
        && slot_ok(a, i) == slot_ok(b, i) && slot_spec(a, i) == slot_spec(b, i) by {
        lemma_slot_kept(a, b, i);
    }
}

/// Every live slot of `nb` is live in `ob`, at the same offset, with a size
/// no larger: its reservation lies within the one it has in `ob`.
pub open spec fn nested(nb: Seq<Entry>, ob: Seq<Entry>) -> bool {
    forall|i: int|
        0 <= i < MAX_SUB_BUCKETS && is_live(#[trigger] nb[i]) ==> is_live(ob[i]) && nb[i].offset == ob[i].offset
            && nb[i].size <= ob[i].size
}

/// A payload no larger than slot `j`'s in a well-formed `ob`, placed at
/// that slot's offset, is free in a directory nested in `ob`.
proof fn lemma_nested_place(nb: Seq<Entry>, ob: Seq<Entry>, j: int, n: nat)
    requires
        dir_wf(ob),
        nb.len() == MAX_SUB_BUCKETS,
        nested(nb, ob),
        0 <= j < MAX_SUB_BUCKETS,
        is_live(ob[j]),
        1 <= n <= ob[j].size,
    ensures
        placement_free(without(nb, j), ob[j].offset as int, next_pow2(n) as int),
        n <= MAX_DATA_SIZE - SUB_BUCKET_HEADER_SIZE,
{
    lemma_next_pow2_monotonic(n, ob[j].size as nat);
    lemma_next_pow2(ob[j].size as nat);
    let w = without(nb, j);
    assert forall|i: int| 0 <= i < w.len() && is_live(#[trigger] w[i]) implies ob[j].offset + next_pow2(n)
        <= w[i].offset || reserved_end(w[i]) <= ob[j].offset by {
        assert(i != j);
        assert(w[i] == nb[i]);
        lemma_next_pow2_monotonic(nb[i].size as nat, ob[i].size as nat);
    }
}

/// Moves the pairs of slot `j` of `src` that now address block `target` to
/// slot `j` of `nb`, at the offset the slot has in `src`, and returns the
/// pairs that stay (`None` for an empty slot).
fn split_slot(src: &SubBucketer, nb: &mut SubBucketer, j: u8, nl: u8, ns: u32, s: usize, target: usize) -> (r: Option<
    Record,
>)
    requires
        src.wf(),
        slot_ok(*src, j as int),
        old(nb).wf(),
        !is_live(old(nb).dir()[j as int]),
        nested(old(nb).dir(), src.dir()),
        nl <= MAX_LEVEL,
        ns < exp2(nl as nat),
    ensures
        final(nb).wf(),
        nested(final(nb).dir(), src.dir()),
        slot_ok(*final(nb), j as int),
        block_pairs(*final(nb), j as int) == keep_where(block_pairs(*src, j as int), nl as nat, ns as nat, target as int),
        forall|i: int| 0 <= i < MAX_SUB_BUCKETS && i != j ==> #[trigger] final(nb).dir()[i] == old(nb).dir()[i],
        forall|i: int|
            0 <= i < MAX_SUB_BUCKETS && i != j && is_live(old(nb).dir()[i]) ==> #[trigger] final(nb).payload(i)
                == old(nb).payload(i),
        r matches Some(st) ==> is_live(src.dir()[j as int]) && st.wf() && st@ == keep_where(
            block_pairs(*src, j as int),
            nl as nat,
            ns as nat,
            s as int,
        ),
        r is None ==> !is_live(src.dir()[j as int]),
{
    proof {
        lemma_slot_ok(*src, j as int);
        lemma_slot_ok(*nb, j as int);
    }
    match src.get_sub_bucket(j) {
        Ok(Some(rec)) => {
            let stay = keep(&rec, nl, ns, s);
            let moved = keep(&rec, nl, ns, target);
            if !moved.is_empty() {
                let e = src.get_entry(j);
                proof {
                    lemma_keep_where(rec@, nl as nat, ns as nat, target as int);
                    crate::codec::lemma_be16_bytes(0);
                    lemma_nested_place(nb.dir(), src.dir(), j as int, encode_spec(moved@).len());
                }
                let ghost before_nb = *nb;
                nb.put_sub_bucket_at(j, &moved, e.offset);
                proof {
                    lemma_slot_written(*nb, j as int, moved@);
                    assert forall|i: int| 0 <= i < MAX_SUB_BUCKETS && is_live(#[trigger] nb.dir()[i]) implies is_live(
                        src.dir()[i],
                    ) && nb.dir()[i].offset == src.dir()[i].offset && nb.dir()[i].size <= src.dir()[i].size by {
                        if i != j {
                            assert(nb.dir()[i] == before_nb.dir()[i]);
                        }
                    }
                }
            } else {
                assert(moved@ =~= Seq::<(Seq<char>, Seq<char>)>::empty());
                assert(block_pairs(*nb, j as int) =~= moved@);
            }
            Some(stay)
        },
        _ => {
            assert(keep_where(Seq::<(Seq<char>, Seq<char>)>::empty(), nl as nat, ns as nat, target as int) =~= Seq::<
                (Seq<char>, Seq<char>),
            >::empty());
            None
        },
    }
}

/// Rewrites slot `j` with the pairs `st`, which take no more room than the
/// slot's current payload, or clears it when `st` is empty.
fn shrink_slot(blk: &mut SubBucketer, j: u8, st: &Record)
    requires
        old(blk).wf(),
        slot_ok(*old(blk), j as int),
        is_live(old(blk).dir()[j as int]),
        st.wf(),
        encodable(st@),
        encode_spec(st@).len() <= old(blk).dir()[j as int].size,
    ensures
        final(blk).wf(),
        slot_ok(*final(blk), j as int),
        block_pairs(*final(blk), j as int) == st@,
        forall|i: int| 0 <= i < MAX_SUB_BUCKETS && i != j ==> #[trigger] final(blk).dir()[i] == old(blk).dir()[i],
        forall|i: int|
            0 <= i < MAX_SUB_BUCKETS && i != j && is_live(old(blk).dir()[i]) ==> #[trigger] final(blk).payload(i)
                == old(blk).payload(i),
{
    if st.is_empty() {
        blk.del_sub_bucket(j);
        assert(st@ =~= Seq::<(Seq<char>, Seq<char>)>::empty());
        proof {
            lemma_slot_ok(*blk, j as int);
        }
    } else {
        proof {
            lemma_next_pow2(old(blk).dir()[j as int].size as nat);
        }
        let _ = blk.put_sub_bucket(j, st);
        proof {
            lemma_slot_written(*blk, j as int, st@);
        }
    }
}


/// A write to slot `j` of block `b` that stores only keys addressing it
/// keeps every pair in the sub-bucket its key addresses.
proof fn lemma_placed_after_write(before: Hash, after: Hash, b: int, j: int)
    requires
        placed(before.spec_blocks(), before.spec_level() as nat, before.spec_split() as nat),
        0 <= b < before.spec_blocks().len(),
        0 <= j < MAX_SUB_BUCKETS,
        after.spec_level() == before.spec_level(),
        after.spec_split() == before.spec_split(),
        after.spec_blocks().len() == before.spec_blocks().len(),
        forall|c: int| 0 <= c < before.spec_blocks().len() && c != b ==> #[trigger] after.spec_blocks()[c] == before.spec_blocks()[c],
        forall|i: int|
            0 <= i < MAX_SUB_BUCKETS && i != j ==> #[trigger] after.spec_blocks()[b].dir()[i] == before.spec_blocks()[b].dir()[i],
        forall|i: int|
            0 <= i < MAX_SUB_BUCKETS && i != j && is_live(before.spec_blocks()[b].dir()[i])
                ==> #[trigger] after.spec_blocks()[b].payload(i) == before.spec_blocks()[b].payload(i),
        forall|x: (Seq<char>, Seq<char>)|
            #[trigger] after.slot_pairs(b, j).contains(x) ==> address(
                key_hash(x.0),
                before.spec_level() as nat,
                before.spec_split() as nat,
            ) == b * 256 + j,
    ensures
        placed(after.spec_blocks(), after.spec_level() as nat, after.spec_split() as nat),
{
    reveal(placed);
    let nb = after.spec_blocks()[b];
    let ob = before.spec_blocks()[b];
    lemma_slots_kept_except(nb, ob, j);
    assert forall|c: int, i: int, x: (Seq<char>, Seq<char>)|
        0 <= c < after.spec_blocks().len() && 0 <= i < MAX_SUB_BUCKETS && #[trigger] block_pairs(
            after.spec_blocks()[c],
            i,
        ).contains(x) implies address(key_hash(x.0), after.spec_level() as nat, after.spec_split() as nat) == c * 256
        + i by {
        if c != b {
            assert(block_pairs(before.spec_blocks()[c], i).contains(x));
        } else if i != j {
            assert(block_pairs(ob, i) == block_pairs(nb, i));
            assert(block_pairs(before.spec_blocks()[c], i).contains(x));
        } else {
            assert(after.slot_pairs(b, j).contains(x));
        }
    }
}

/// A write to slot `j` of block `b` changes the table's pair count by the
/// change in that slot alone.
proof fn lemma_total_after_write(before: Hash, after: Hash, b: int, j: int)
    requires
        before.spec_count() == table_total(before.spec_blocks(), before.spec_blocks().len() as int),
        0 <= b < before.spec_blocks().len(),
        0 <= j < MAX_SUB_BUCKETS,
        after.spec_blocks().len() == before.spec_blocks().len(),
        forall|c: int| 0 <= c < before.spec_blocks().len() && c != b ==> #[trigger] after.spec_blocks()[c] == before.spec_blocks()[c],
        forall|i: int|
            0 <= i < MAX_SUB_BUCKETS && i != j ==> #[trigger] after.spec_blocks()[b].dir()[i] == before.spec_blocks()[b].dir()[i],
        forall|i: int|
            0 <= i < MAX_SUB_BUCKETS && i != j && is_live(before.spec_blocks()[b].dir()[i])
                ==> #[trigger] after.spec_blocks()[b].payload(i) == before.spec_blocks()[b].payload(i),
    ensures
        table_total(after.spec_blocks(), after.spec_blocks().len() as int) == before.spec_count()
            - before.slot_pairs(b, j).len() + after.slot_pairs(b, j).len(),
{
    let nb = after.spec_blocks()[b];
    let ob = before.spec_blocks()[b];
    let len = before.spec_blocks().len() as int;
    lemma_slots_kept_except(nb, ob, j);
    assert(after.spec_blocks() =~= before.spec_blocks().update(b, nb));
    lemma_table_total_update(before.spec_blocks(), b, nb, len);
    lemma_block_total_slot(nb, ob, j, MAX_SUB_BUCKETS as int);
}

/// Every pair after `pairs_set` is the new pair or was there before.
proof fn lemma_pairs_set_contains(s: Seq<(Seq<char>, Seq<char>)>, k: Seq<char>, v: Seq<char>)
    ensures
        forall|x: (Seq<char>, Seq<char>)| #[trigger] pairs_set(s, k, v).contains(x) ==> x == (k, v) || s.contains(x),
    decreases s.len(),
{
    if s.len() > 0 {
        let t = s.drop_first();
        lemma_pairs_set_contains(t, k, v);
        let r = pairs_set(s, k, v);
        assert forall|x: (Seq<char>, Seq<char>)| #[trigger] r.contains(x) implies x == (k, v) || s.contains(x) by {
            let i = choose|i: int| 0 <= i < r.len() && r[i] == x;
            if i > 0 {
                if s[0].0 == k {
                    assert(t[i - 1] == x);
                    assert(s[i] == x);
                } else {
                    assert(pairs_set(t, k, v)[i - 1] == x);
                    assert(pairs_set(t, k, v).contains(x));
                    if t.contains(x) {
                        let m = choose|m: int| 0 <= m < t.len() && t[m] == x;
                        assert(s[m + 1] == x);
                    }
                }
            } else if s[0].0 != k {
                assert(s[0] == x);
            }
        }
    }
}

/// Every pair after `pairs_remove` was there before.
proof fn lemma_pairs_remove_contains(s: Seq<(Seq<char>, Seq<char>)>, k: Seq<char>)
    ensures
        forall|x: (Seq<char>, Seq<char>)| #[trigger] pairs_remove(s, k).contains(x) ==> s.contains(x),
    decreases s.len(),
{
    if s.len() > 0 {
        let t = s.drop_first();
        lemma_pairs_remove_contains(t, k);
        let r = pairs_remove(s, k);
        assert forall|x: (Seq<char>, Seq<char>)| #[trigger] r.contains(x) implies s.contains(x) by {
            let i = choose|i: int| 0 <= i < r.len() && r[i] == x;
            if s[0].0 == k {
                assert(s[i + 1] == x);
            } else if i > 0 {
                assert(pairs_remove(t, k)[i - 1] == x);
                assert(pairs_remove(t, k).contains(x));
                let m = choose|m: int| 0 <= m < t.len() && t[m] == x;
                assert(s[m + 1] == x);
            } else {
                assert(s[0] == x);
            }
        }
    }
}

/// The pairs of a slot address that slot.
proof fn lemma_slot_placed(h: Hash, b: int, j: int)
    requires
        placed(h.spec_blocks(), h.spec_level() as nat, h.spec_split() as nat),
        0 <= b < h.spec_blocks().len(),
        0 <= j < MAX_SUB_BUCKETS,
    ensures
        forall|x: (Seq<char>, Seq<char>)|
            #[trigger] h.slot_pairs(b, j).contains(x) ==> address(
                key_hash(x.0),
                h.spec_level() as nat,
                h.spec_split() as nat,
            ) == b * 256 + j,
{
    reveal(placed);
    assert forall|x: (Seq<char>, Seq<char>)| #[trigger] h.slot_pairs(b, j).contains(x) implies address(
        key_hash(x.0),
        h.spec_level() as nat,
        h.spec_split() as nat,
    ) == b * 256 + j by {
        assert(block_pairs(h.spec_blocks()[b], j).contains(x));
    }
}

/// After the slot that `k` addresses is rewritten with `pairs_remove` of its
/// pairs, the table maps every other key as before and `k` to nothing.
proof fn lemma_delete_view(before: Hash, after: Hash, b: int, j: int, k: Seq<char>, st: Seq<(Seq<char>, Seq<char>)>)
    requires
        before.wf(),
        before.slot_of(k) == (b, j),
        0 <= b < before.spec_blocks().len(),
        0 <= j < MAX_SUB_BUCKETS,
        after.spec_level() == before.spec_level(),
        after.spec_split() == before.spec_split(),
        after.spec_blocks().len() == before.spec_blocks().len(),
        forall|c: int| 0 <= c < before.spec_blocks().len() && c != b ==> #[trigger] after.spec_blocks()[c] == before.spec_blocks()[c],
        after.spec_blocks()[b].wf(),
        slot_ok(after.spec_blocks()[b], j),
        block_pairs(after.spec_blocks()[b], j) == st,
        st == pairs_remove(before.slot_pairs(b, j), k),
        st.len() == before.slot_pairs(b, j).len() - 1,
        keys_unique(before.slot_pairs(b, j)),
        forall|i: int|
            0 <= i < MAX_SUB_BUCKETS && i != j ==> #[trigger] after.spec_blocks()[b].dir()[i] == before.spec_blocks()[b].dir()[i],
        forall|i: int|
            0 <= i < MAX_SUB_BUCKETS && i != j && is_live(before.spec_blocks()[b].dir()[i])
                ==> #[trigger] after.spec_blocks()[b].payload(i) == before.spec_blocks()[b].payload(i),
    ensures
        after.wf_shape(),
        after.view() == before.view().remove(k),
        table_total(after.spec_blocks(), after.spec_blocks().len() as int) == before.spec_count() - 1,
{
    let p = before.slot_pairs(b, j);
    lemma_slot_placed(before, b, j);
    lemma_pairs_remove_contains(p, k);
    assert forall|x: (Seq<char>, Seq<char>)| #[trigger] after.slot_pairs(b, j).contains(x) implies address(
        key_hash(x.0),
        before.spec_level() as nat,
        before.spec_split() as nat,
    ) == b * 256 + j by {
        assert(p.contains(x));
    }
    lemma_table_after_write(before, after, b, j);
    assert forall|k2: Seq<char>| #[trigger] after.lookup_key(k2) == if k2 == k {
        None
    } else {
        before.lookup_key(k2)
    } by {
        if after.slot_of(k2) == (b, j) {
            lemma_remove_lookup(p, k, k2);
        }
    }
    assert(after.view() =~= before.view().remove(k));
}

/// With distinct keys, removing `k` hides `k` and keeps every other key.
proof fn lemma_remove_lookup(s: Seq<(Seq<char>, Seq<char>)>, k: Seq<char>, k2: Seq<char>)
    requires
        keys_unique(s),
    ensures
        lookup(pairs_remove(s, k), k2) == if k2 == k {
            None
        } else {
            lookup(s, k2)
        },
    decreases s.len(),
{
    if s.len() > 0 {
        let t = s.drop_first();
        assert(keys_unique(t)) by {
            assert forall|a: int, b: int| 0 <= a < t.len() && 0 <= b < t.len() && a != b implies #[trigger] t[a].0
                != #[trigger] t[b].0 by {
                assert(t[a] == s[a + 1] && t[b] == s[b + 1]);
            }
        }
        lemma_remove_lookup(t, k, k2);
        if s[0].0 == k {
            if k2 == k {
                crate::record::lemma_lookup(t, k);
                assert forall|m: int| 0 <= m < t.len() implies #[trigger] t[m].0 != k by {
                    assert(t[m] == s[m + 1]);
                }
            }
        } else {
            let r = seq![s[0]] + pairs_remove(t, k);
            assert(r[0] == s[0]);
            assert(r.drop_first() =~= pairs_remove(t, k));
        }
    }
}


/// Number of pairs in the first `n` slots of a block.
pub open spec fn block_total(blk: SubBucketer, n: int) -> int
    decreases n,
{
    if n <= 0 {
        0
    } else {
        block_total(blk, n - 1) + block_pairs(blk, n - 1).len()
    }
}

/// Number of pairs in the first `n` blocks.
pub open spec fn table_total(bs: Seq<SubBucketer>, n: int) -> int
    decreases n,
{
    if n <= 0 {
        0
    } else {
        table_total(bs, n - 1) + block_total(bs[n - 1], MAX_SUB_BUCKETS as int)
    }
}

/// A block's pair count is never negative.
proof fn lemma_block_total_nonneg(blk: SubBucketer, n: int)
    ensures
        block_total(blk, n) >= 0,
    decreases n,
{
    if n > 0 {
        lemma_block_total_nonneg(blk, n - 1);
    }
}

/// A table's pair count is never negative.
proof fn lemma_table_total_nonneg(bs: Seq<SubBucketer>, n: int)
    ensures
        table_total(bs, n) >= 0,
    decreases n,
{
    if n > 0 {
        lemma_table_total_nonneg(bs, n - 1);
        lemma_block_total_nonneg(bs[n - 1], MAX_SUB_BUCKETS as int);
    }
}

/// A block with no live slot holds no pair.
proof fn lemma_block_total_empty(blk: SubBucketer, n: int)
    requires
        n <= MAX_SUB_BUCKETS,
        forall|i: int| 0 <= i < MAX_SUB_BUCKETS ==> !is_live(#[trigger] blk.dir()[i]),
    ensures
        block_total(blk, n) == 0,
    decreases n,
{
    if n > 0 {
        lemma_block_total_empty(blk, n - 1);
        assert(!is_live(blk.dir()[n - 1]));
    }
}

/// Blocks that agree on every slot but `j` differ in total by slot `j` alone.
proof fn lemma_block_total_slot(a: SubBucketer, b: SubBucketer, j: int, n: int)
    requires
        0 <= j < MAX_SUB_BUCKETS,
        n <= MAX_SUB_BUCKETS,
        forall|i: int| 0 <= i < MAX_SUB_BUCKETS && i != j ==> #[trigger] block_pairs(a, i) == block_pairs(b, i),
    ensures
        block_total(a, n) - (if j < n {
            block_pairs(a, j).len() as int
        } else {
            0
        }) == block_total(b, n) - (if j < n {
            block_pairs(b, j).len() as int
        } else {
            0
        }),
    decreases n,
{
    if n > 0 {
        lemma_block_total_slot(a, b, j, n - 1);
        if n - 1 != j {
            assert(block_pairs(a, n - 1) == block_pairs(b, n - 1));
        }
    }
}

/// Replacing one block changes the table total by the difference of the
/// two blocks' totals.
proof fn lemma_table_total_update(bs: Seq<SubBucketer>, c: int, x: SubBucketer, n: int)
    requires
        0 <= c < bs.len(),
        n <= bs.len(),
    ensures
        table_total(bs.update(c, x), n) == table_total(bs, n) + if c < n {
            block_total(x, MAX_SUB_BUCKETS as int) - block_total(bs[c], MAX_SUB_BUCKETS as int)
        } else {
            0
        },
    decreases n,
{
    if n > 0 {
        lemma_table_total_update(bs, c, x, n - 1);
    }
}

/// Appending a block adds its total and leaves the earlier prefix sums.
proof fn lemma_table_total_push(bs: Seq<SubBucketer>, x: SubBucketer, n: int)
    requires
        n <= bs.len(),
    ensures
        table_total(bs.push(x), n) == table_total(bs, n),
    decreases n,
{
    if n > 0 {
        lemma_table_total_push(bs, x, n - 1);
        assert(bs.push(x)[n - 1] == bs[n - 1]);
    }
}

/// Slot by slot, two blocks that together hold the pairs of a third hold as
/// many pairs in total.
proof fn lemma_block_total_split(a: SubBucketer, b: SubBucketer, o: SubBucketer, n: int)
    requires
        n <= MAX_SUB_BUCKETS,
        forall|i: int|
            0 <= i < MAX_SUB_BUCKETS ==> (#[trigger] block_pairs(a, i)).len() + block_pairs(b, i).len()
                == block_pairs(o, i).len(),
    ensures
        block_total(a, n) + block_total(b, n) == block_total(o, n),
    decreases n,
{
    if n > 0 {
        lemma_block_total_split(a, b, o, n - 1);
        assert(block_pairs(a, n - 1).len() + block_pairs(b, n - 1).len() == block_pairs(o, n - 1).len());
    }
}

/// When every key of `s` addresses one of two blocks, the pairs kept for the
/// two blocks together are all of `s`.
proof fn lemma_keep_partition(s: Seq<(Seq<char>, Seq<char>)>, level: nat, split: nat, b1: int, b2: int)
    requires
        b1 != b2,
        forall|x: (Seq<char>, Seq<char>)|
            #[trigger] s.contains(x) ==> address(key_hash(x.0), level, split) / 256 == b1 || address(
                key_hash(x.0),
                level,
                split,
            ) / 256 == b2,
    ensures
        keep_where(s, level, split, b1).len() + keep_where(s, level, split, b2).len() == s.len(),
    decreases s.len(),
{
    if s.len() > 0 {
        let t = s.drop_last();
        assert forall|x: (Seq<char>, Seq<char>)| #[trigger] t.contains(x) implies address(key_hash(x.0), level, split)
            / 256 == b1 || address(key_hash(x.0), level, split) / 256 == b2 by {
            let i = choose|i: int| 0 <= i < t.len() && t[i] == x;
            assert(s[i] == x);
            assert(s.contains(x));
        }
        lemma_keep_partition(t, level, split, b1, b2);
        assert(s[s.len() - 1] == s.last());
        assert(s.contains(s.last()));
    }
}

/// Every pair stored in `bs` sits in the sub-bucket its key addresses at
/// (`level`, `split`).
#[verifier::opaque]
pub open spec fn placed(bs: Seq<SubBucketer>, level: nat, split: nat) -> bool {
    forall|b: int, j: int, x: (Seq<char>, Seq<char>)|
        0 <= b < bs.len() && 0 <= j < MAX_SUB_BUCKETS && #[trigger] block_pairs(bs[b], j).contains(x) ==> address(
            key_hash(x.0),
            level,
            split,
        ) == b * 256 + j
}


/// The sub-bucket `b * 256 + j` lies in block `b`, at slot `j`.
proof fn lemma_bucket_parts(a: int, b: int, j: int)
    requires
        0 <= j < 256,
        a == b * 256 + j,
    ensures
        a / 256 == b,
        a % 256 == j,
{
    vstd::arithmetic::div_mod::lemma_fundamental_div_mod_converse(a, 256, b, j);
}

/// After block `s` splits into itself and block `target`, every pair still
/// sits in the sub-bucket its key addresses, and the table holds as many
/// pairs as before.
proof fn lemma_split_counted(
    before: Hash,
    bs: Seq<SubBucketer>,
    sb: SubBucketer,
    nb: SubBucketer,
    nl: nat,
    ns: nat,
)
    requires
        before.wf(),
        (nl, ns) == advance(before.spec_level() as nat, before.spec_split() as nat),
        bs == before.spec_blocks().update(before.spec_split() as int, sb).push(nb),
        forall|i: int|
            0 <= i < MAX_SUB_BUCKETS ==> #[trigger] block_pairs(sb, i) == keep_where(
                block_pairs(before.spec_blocks()[before.spec_split() as int], i),
                nl,
                ns,
                before.spec_split() as int,
            ),
        forall|i: int|
            0 <= i < MAX_SUB_BUCKETS ==> #[trigger] block_pairs(nb, i) == keep_where(
                block_pairs(before.spec_blocks()[before.spec_split() as int], i),
                nl,
                ns,
                before.spec_blocks().len() as int,
            ),
    ensures
        table_total(bs, bs.len() as int) == before.spec_count(),
        placed(bs, nl, ns),
{
    let level = before.spec_level() as nat;
    let split = before.spec_split() as nat;
    let s = split as int;
    let len = before.spec_blocks().len() as int;
    let ob = before.spec_blocks()[s];
    let e = exp2(level);
    assert(len == e + split);
    lemma_exp2_pos(level);
    reveal(placed);
    // Where a stored pair's key goes once the block has split.
    assert forall|c: int, i: int, x: (Seq<char>, Seq<char>)|
        0 <= c < len && 0 <= i < MAX_SUB_BUCKETS && #[trigger] block_pairs(before.spec_blocks()[c], i).contains(x)
        implies ({
        let a = address(key_hash(x.0), level, split);
        let a2 = address(key_hash(x.0), nl, ns);
        &&& a == c * 256 + i
        &&& c != s ==> a2 == a
        &&& c == s ==> (a2 == a || a2 == len * 256 + i)
    }) by {
        let a = address(key_hash(x.0), level, split);
        let a2 = address(key_hash(x.0), nl, ns);
        lemma_split_address(key_hash(x.0), level, split);
        lemma_bucket_parts(a, c, i);
        if a2 != a {
            vstd::arithmetic::div_mod::lemma_fundamental_div_mod(a2, 256);
        }
    }
    // Slot by slot, the two halves hold all the pairs.
    assert forall|i: int| 0 <= i < MAX_SUB_BUCKETS implies (#[trigger] block_pairs(sb, i)).len() + block_pairs(
        nb,
        i,
    ).len() == block_pairs(ob, i).len() by {
        let p = block_pairs(ob, i);
        assert forall|x: (Seq<char>, Seq<char>)| #[trigger] p.contains(x) implies address(key_hash(x.0), nl, ns) / 256
            == s || address(key_hash(x.0), nl, ns) / 256 == len by {
            let a2 = address(key_hash(x.0), nl, ns);
            if a2 == address(key_hash(x.0), level, split) {
                lemma_bucket_parts(a2, s, i);
            } else {
                lemma_bucket_parts(a2, len, i);
            }
        }
        lemma_keep_partition(p, nl, ns, s, len);
    }
    lemma_block_total_split(sb, nb, ob, MAX_SUB_BUCKETS as int);
    let up = before.spec_blocks().update(s, sb);
    lemma_table_total_update(before.spec_blocks(), s, sb, len);
    lemma_table_total_push(up, nb, len);
    assert(bs[len] == nb);
    assert forall|c: int, i: int, x: (Seq<char>, Seq<char>)|
        0 <= c < bs.len() && 0 <= i < MAX_SUB_BUCKETS && #[trigger] block_pairs(bs[c], i).contains(x) implies address(
        key_hash(x.0),
        nl,
        ns,
    ) == c * 256 + i by {
        let a2 = address(key_hash(x.0), nl, ns);
        let p = block_pairs(ob, i);
        if c < len && c != s {
            assert(bs[c] == before.spec_blocks()[c]);
            assert(block_pairs(before.spec_blocks()[c], i).contains(x));
        } else if c == s {
            assert(bs[c] == sb);
            lemma_keep_where(p, nl, ns, s);
            assert(p.contains(x));
            if a2 != address(key_hash(x.0), level, split) {
                lemma_bucket_parts(a2, len, i);
            }
        } else {
            assert(bs[c] == nb);
            lemma_keep_where(p, nl, ns, len);
            assert(p.contains(x));
            if a2 == address(key_hash(x.0), level, split) {
                lemma_bucket_parts(a2, s, i);
            }
        }
    }
}

/// Setting a key whose block holds nothing succeeds when the one-pair
/// record fits the largest size class and the count has room.
pub proof fn lemma_set_into_empty_block(h: Hash, k: Seq<char>, v: Seq<char>)
    requires
        h.wf(),
        forall|j: int| 0 <= j < MAX_SUB_BUCKETS ==> !is_live(#[trigger] h.spec_blocks()[h.slot_of(k).0].dir()[j]),
        encodable(seq![(k, v)]),
        encode_spec(seq![(k, v)]).len() <= 1024,
        h.spec_count() < u64::MAX,
    ensures
        h.set_outcome(k, v) == Ok::<(), StoreError>(()),
{
    let (b, j) = h.slot_of(k);
    lemma_total_coverage(key_hash(k), h.spec_level() as nat, h.spec_split() as nat);
    let d = h.spec_blocks()[b].dir();
    assert(!is_live(d[j]));
    assert(h.slot_pairs(b, j) =~= Seq::<(Seq<char>, Seq<char>)>::empty());
    assert(pairs_set(h.slot_pairs(b, j), k, v) == seq![(k, v)]);
    let n = encode_spec(seq![(k, v)]).len();
    lemma_next_pow2(n);
    assert(exp2(10) == 1024) by {
        reveal_with_fuel(exp2, 11);
    }
    crate::helpers::lemma_next_pow2_le_exp2(n, 10);
    let w = without(d, j);
    assert forall|i: int| 0 <= i < MAX_SUB_BUCKETS implies !is_live(#[trigger] w[i]) by {}
    crate::entry::lemma_find_space_empty(w, n);
}

/// A linear hash table of blocks. Sub-bucket `i` is slot `i % 256` of block
/// `i / 256`; a slot holds the record of all pairs whose keys address it.
pub struct Hash {
    count: u64,
    split: u32,
    level: u8,
    blocks: Vec<SubBucketer>,
}

impl Hash {
    /// Number of key/value pairs counted by writes.
    pub closed spec fn spec_count(&self) -> u64 {
        self.count
    }

    /// The next block to split.
    pub closed spec fn spec_split(&self) -> u32 {
        self.split
    }

    /// Completed doubling rounds.
    pub closed spec fn spec_level(&self) -> u8 {
        self.level
    }

    /// The blocks, in order.
    pub closed spec fn spec_blocks(&self) -> Seq<SubBucketer> {
        self.blocks@
    }

    /// The (block, slot) that key `k` addresses.
    pub open spec fn slot_of(&self, k: Seq<char>) -> (int, int) {
        let a = address(key_hash(k), self.spec_level() as nat, self.spec_split() as nat);
        (a / (SUB_BUCKET as int), a % (SUB_BUCKET as int))
    }

    /// The pairs stored in the slot at (b, j); none when it is empty.
    pub open spec fn slot_pairs(&self, b: int, j: int) -> Seq<(Seq<char>, Seq<char>)> {
        block_pairs(self.spec_blocks()[b], j)
    }

    /// The value of key `k`: looked up in the record of the slot it addresses.
    pub open spec fn lookup_key(&self, k: Seq<char>) -> Option<Seq<char>> {
        let (b, j) = self.slot_of(k);
        lookup(self.slot_pairs(b, j), k)
    }

    /// The mapping the table holds.
    pub open spec fn view(&self) -> Map<Seq<char>, Seq<char>> {
        Map::new(|k: Seq<char>| self.lookup_key(k) is Some, |k: Seq<char>| self.lookup_key(k)->0)
    }

    /// The block count matches level and split, every block is well formed,
    /// and every live slot holds a record that decodes.
    pub open spec fn wf(&self) -> bool {
        &&& self.wf_shape()
        &&& self.spec_count() == table_total(self.spec_blocks(), self.spec_blocks().len() as int)
    }

    /// Everything `wf` asks but the count.
    pub open spec fn wf_shape(&self) -> bool {
        &&& self.spec_level() <= MAX_LEVEL
        &&& self.spec_split() < exp2(self.spec_level() as nat)
        &&& self.spec_blocks().len() == exp2(self.spec_level() as nat) + self.spec_split()
        &&& forall|b: int| 0 <= b < self.spec_blocks().len() ==> (#[trigger] self.spec_blocks()[b]).wf()
        &&& forall|b: int, j: int|
            0 <= b < self.spec_blocks().len() && 0 <= j < MAX_SUB_BUCKETS ==> #[trigger] slot_ok(
                self.spec_blocks()[b],
                j,
            )
        &&& placed(self.spec_blocks(), self.spec_level() as nat, self.spec_split() as nat)
    }


    /// An empty table: one empty block, level 0, nothing split.
    pub fn new() -> (r: Hash)
        ensures
            r.wf(),
            r.spec_count() == 0,
            r.spec_split() == 0,
            r.spec_level() == 0,
            r.spec_blocks().len() == 1,
            forall|j: int| 0 <= j < MAX_SUB_BUCKETS ==> !is_live(#[trigger] r.spec_blocks()[0].dir()[j]),
            r.view() == Map::<Seq<char>, Seq<char>>::empty(),
    {
        let mut blocks: Vec<SubBucketer> = Vec::new();
        blocks.push(SubBucketer::new());
        let r = Hash { count: 0, split: 0, level: 0, blocks };
        assert(exp2(0) == 1);
        assert(r.view() =~= Map::<Seq<char>, Seq<char>>::empty()) by {
            assert forall|k: Seq<char>| !(#[trigger] r.view().contains_key(k)) by {
                let (b, j) = r.slot_of(k);
                lemma_total_coverage(key_hash(k), 0, 0);
                assert(!is_live(r.blocks@[b].dir()[j]));
            }
        }
        assert forall|b: int, j: int| 0 <= b < r.spec_blocks().len() && 0 <= j < MAX_SUB_BUCKETS implies #[trigger] slot_ok(
            r.spec_blocks()[b],
            j,
        ) by {
            assert(!is_live(r.blocks@[b].dir()[j]));
        }
        proof {
            lemma_block_total_empty(r.blocks@[0], MAX_SUB_BUCKETS as int);
            assert(table_total(r.blocks@, 1) == table_total(r.blocks@, 0) + block_total(
                r.blocks@[0],
                MAX_SUB_BUCKETS as int,
            ));
            reveal(placed);
            assert forall|b: int, j: int, x: (Seq<char>, Seq<char>)|
                0 <= b < r.spec_blocks().len() && 0 <= j < MAX_SUB_BUCKETS && #[trigger] block_pairs(
                    r.spec_blocks()[b],
                    j,
                ).contains(x) implies address(key_hash(x.0), r.spec_level() as nat, r.spec_split() as nat) == b * 256
                + j by {
                assert(!is_live(r.blocks@[b].dir()[j]));
                assert(block_pairs(r.spec_blocks()[b], j).len() == 0);
            }
        }
        r
    }

    /// Counted pairs.
    pub fn count(&self) -> (r: u64)
        ensures
            r == self.spec_count(),
    {
        self.count
    }

    /// The next block to split.
    pub fn split_pointer(&self) -> (r: u32)
        ensures
            r == self.spec_split(),
    {
        self.split
    }

    /// Completed doubling rounds.
    pub fn level(&self) -> (r: u8)
        ensures
            r == self.spec_level(),
    {
        self.level
    }

    /// Number of blocks.
    pub fn num_blocks(&self) -> (r: usize)
        ensures
            r == self.spec_blocks().len(),
    {
        self.blocks.len()
    }

    /// The block at `i`.
    pub fn block(&self, i: usize) -> (r: &SubBucketer)
        requires
            i < self.spec_blocks().len(),
        ensures
            *r == self.spec_blocks()[i as int],
    {
        &self.blocks[i]
    }

    /// The sub-bucket that hash `h` selects, as (block index, slot index).
    fn address_of(&self, h: u32) -> (r: (usize, u8))
        requires
            self.wf(),
        ensures
            r.0 == address(h, self.level as nat, self.split as nat) / (SUB_BUCKET as int),
            r.1 == address(h, self.level as nat, self.split as nat) % (SUB_BUCKET as int),
            r.0 < self.blocks@.len(),
    {
        address_in(h, self.level, self.split)
    }

    /// The (block, slot) that `key` addresses, and the record stored there.
    pub fn get_bucket(&self, key: &str) -> (r: (usize, u8, Option<Record>))
        requires
            self.wf(),
        ensures
            (r.0 as int, r.1 as int) == self.slot_of(key@),
            r.2 matches Some(m) ==> m.wf() && is_live(self.spec_blocks()[r.0 as int].dir()[r.1 as int])
                && m@ == self.slot_pairs(r.0 as int, r.1 as int),
            r.2 is None ==> !is_live(self.spec_blocks()[r.0 as int].dir()[r.1 as int]),
    {
        let h = hash_key(key);
        let (b, j) = self.address_of(h);
        assert((self.blocks@[b as int]).wf());
        proof {
            lemma_slot_ok(self.blocks@[b as int], j as int);
        }
        match self.blocks[b].get_sub_bucket(j) {
            Ok(x) => (b, j, x),
            Err(_) => {
                // A well-formed table holds no corrupt slot.
                assert(false);
                (b, j, None)
            },
        }
    }

    /// The value stored under `key`, if any.
    pub fn get(&self, key: &str) -> (r: Option<String>)
        requires
            self.wf(),
        ensures
            r matches Some(v) ==> self.view().contains_key(key@) && self.view()[key@] == v@,
            r is None ==> !self.view().contains_key(key@),
    {
        let (_, _, maybe) = self.get_bucket(key);
        match maybe {
            Some(m) => m.get(key),
            None => None,
        }
    }

    /// What setting key `k` to `v` returns: a storage-full error when the
    /// key is new and the count is at its maximum, a validation error when
    /// the slot's record with the pair set cannot be encoded, a storage-full
    /// error when the block has no room for it, and success otherwise.
    pub open spec fn set_outcome(&self, k: Seq<char>, v: Seq<char>) -> Result<(), StoreError> {
        let (b, j) = self.slot_of(k);
        let s0 = self.slot_pairs(b, j);
        let s1 = pairs_set(s0, k, v);
        if lookup(s0, k) is None && self.spec_count() == u64::MAX {
            Err(StoreError::StorageFull)
        } else if !encodable(s1) {
            Err(StoreError::Validation)
        } else if put_place(self.spec_blocks()[b].dir(), j, encode_spec(s1).len()) is None {
            Err(StoreError::StorageFull)
        } else {
            Ok(())
        }
    }

    /// Whether setting key `k` to `v` leaves the written block's live payload
    /// above `GROWTH_THRESHOLD` in a table below `MAX_LEVEL`: then the table
    /// splits once.
    pub open spec fn set_grows(&self, k: Seq<char>, v: Seq<char>) -> bool {
        let (b, j) = self.slot_of(k);
        let s1 = pairs_set(self.slot_pairs(b, j), k, v);
        let d = self.spec_blocks()[b].dir();
        let n = encode_spec(s1).len();
        &&& self.spec_level() < MAX_LEVEL
        &&& put_place(d, j, n) is Some
        &&& live_total(
            d.update(j, Entry { offset: put_place(d, j, n)->0 as u16, size: n as u16 }),
            MAX_SUB_BUCKETS as int,
        ) > GROWTH_THRESHOLD
    }

    /// Sets `key` to `value`. The key's record is read (or started empty),
    /// the pair is set, and the record is written back to its slot; the
    /// count grows when the key is new. When the block's live payload then
    /// exceeds `GROWTH_THRESHOLD`, the table splits once. On an error the
    /// table is unchanged.
    #[verifier::rlimit(80)]
    pub fn set(&mut self, key: &str, value: &str) -> (r: Result<(), StoreError>)
        requires
            old(self).wf(),
        ensures
            final(self).wf(),
            r == old(self).set_outcome(key@, value@),
            r is Ok ==> final(self).view() == old(self).view().insert(key@, value@),
            r is Ok ==> final(self).spec_count() == old(self).spec_count() + if old(self).view().contains_key(key@) {
                0int
            } else {
                1int
            },
            r is Err ==> final(self).view() == old(self).view() && final(self).spec_count() == old(self).spec_count()
                && final(self).spec_blocks().len() == old(self).spec_blocks().len(),
            final(self).spec_blocks().len() == old(self).spec_blocks().len() || (r is Ok
                && final(self).spec_blocks().len() == old(self).spec_blocks().len() + 1),
            final(self).spec_blocks().len() == old(self).spec_blocks().len() + 1 ==> old(self).set_grows(
                key@,
                value@,
            ),
            r is Ok && !old(self).set_grows(key@, value@) ==> final(self).spec_blocks().len() == old(
                self,
            ).spec_blocks().len(),
            r is Ok && old(self).set_grows(key@, value@) ==> final(self).spec_blocks().len() == old(
                self,
            ).spec_blocks().len() + 1 && (final(self).spec_level() as nat, final(self).spec_split() as nat)
                == advance(old(self).spec_level() as nat, old(self).spec_split() as nat),
            r is Ok && !old(self).set_grows(key@, value@) ==> final(self).spec_level() == old(self).spec_level()
                && final(self).spec_split() == old(self).spec_split(),
    {
        broadcast use vstd::string::group_string_axioms;

        let ghost before = *self;
        let (b, j, maybe) = self.get_bucket(key);
        let mut rec = match maybe {
            Some(m) => m,
            None => Record::new(),
        };
        let ghost s0 = rec@;
        assert(s0 == before.slot_pairs(b as int, j as int));
        let is_new = !rec.contains_key(key);
        if is_new && self.count == u64::MAX {
            return Err(StoreError::StorageFull);
        }
        let k = key.to_string();
        let v = value.to_string();
        let fresh = rec.insert(k, v);
        assert(fresh == is_new);
        assert(rec@ == pairs_set(s0, key@, value@));
        assert(rec@.len() == s0.len() + if is_new {
            1int
        } else {
            0int
        });
        let res = self.blocks[b].put_sub_bucket(j, &rec);
        match res {
            Ok(()) => {},
            Err(e) => {
                proof {
                    assert forall|k: Seq<char>| #[trigger] self.lookup_key(k) == before.lookup_key(k) by {
                        let (c, i) = before.slot_of(k);
                        lemma_total_coverage(key_hash(k), before.spec_level() as nat, before.spec_split() as nat);
                        if c == b {
                            lemma_slot_kept(self.blocks@[c], before.blocks@[c], i);
                        }
                    }
                    assert(self.view() =~= before.view());
                    lemma_slot_kept(self.blocks@[b as int], before.blocks@[b as int], j as int);
                    lemma_slot_placed(before, b as int, j as int);
                    lemma_table_after_write(before, *self, b as int, j as int);
                }
                return Err(e);
            },
        }
        proof {
            let nb = self.blocks@[b as int];
            lemma_slot_written(nb, j as int, rec@);
            lemma_slot_placed(before, b as int, j as int);
            lemma_pairs_set_contains(s0, key@, value@);
            let a = address(key_hash(key@), before.spec_level() as nat, before.spec_split() as nat);
            vstd::arithmetic::div_mod::lemma_fundamental_div_mod(a, 256);
            assert forall|x: (Seq<char>, Seq<char>)| #[trigger] self.slot_pairs(b as int, j as int).contains(x) implies address(
                key_hash(x.0),
                before.spec_level() as nat,
                before.spec_split() as nat,
            ) == b * 256 + j by {
                assert(rec@.contains(x));
                if x != (key@, value@) {
                    assert(s0.contains(x));
                }
            }
            lemma_table_after_write(before, *self, b as int, j as int);
            assert forall|k: Seq<char>| #[trigger] self.lookup_key(k) == if k == key@ {
                Some(value@)
            } else {
                before.lookup_key(k)
            } by {
                if self.slot_of(k) == (b as int, j as int) {
                    assert(self.slot_pairs(b as int, j as int) == rec@);
                } else {
                    assert(k != key@);
                }
            }
            assert(self.view() =~= before.view().insert(key@, value@));
        }
        if is_new {
            self.count = self.count + 1;
        }
        let grow = self.blocks[b].get_size() > GROWTH_THRESHOLD && self.level < MAX_LEVEL;
        if grow {
            let _ = self.split();
        }
        Ok(())
    }

    /// Removes `key`; returns whether it was present. The shrunk record is
    /// written back in place, or the slot is cleared when the record becomes
    /// empty; the count drops by one when the key was present.
    #[verifier::rlimit(80)]
    pub fn delete(&mut self, key: &str) -> (r: bool)
        requires
            old(self).wf(),
        ensures
            final(self).wf(),
            r == old(self).view().contains_key(key@),
            final(self).view() == old(self).view().remove(key@),
            final(self).spec_count() == if r {
                old(self).spec_count() - 1
            } else {
                old(self).spec_count() as int
            },
            final(self).spec_blocks().len() == old(self).spec_blocks().len(),
    {
        let ghost before = *self;
        let (b, j, maybe) = self.get_bucket(key);
        let mut rec = match maybe {
            Some(m) => m,
            None => {
                assert(before.view() =~= before.view().remove(key@));
                return false;
            },
        };
        let ghost ob = before.blocks@[b as int];
        proof {
            assert(slot_ok(before.spec_blocks()[b as int], j as int));
            lemma_slot_ok(ob, j as int);
            lemma_remove_shrinks(rec@, key@);
        }
        if !rec.remove(key) {
            assert(before.view() =~= before.view().remove(key@));
            return false;
        }
        shrink_slot(&mut self.blocks[b], j, &rec);
        proof {
            lemma_delete_view(before, *self, b as int, j as int, key@, rec@);
            lemma_table_total_nonneg(self.spec_blocks(), self.spec_blocks().len() as int);
        }
        self.count = self.count - 1;
        true
    }

    /// Splits block `split`: a new, empty block is appended, and each pair
    /// of block `split` whose key now addresses the new block moves to the
    /// same slot there. The split pointer then advances; when it reaches
    /// `2^level` it wraps to 0 and the level grows. The mapping and the count
    /// are unchanged, and so is every other block. Moved records keep the
    /// offsets they had, which are free in the new block, so a split below
    /// `MAX_LEVEL` always succeeds; at `MAX_LEVEL` it is refused with a
    /// validation error and the table is unchanged.
    pub fn split(&mut self) -> (r: Result<(), StoreError>)
        requires
            old(self).wf(),
        ensures
            final(self).wf(),
            final(self).view() == old(self).view(),
            final(self).spec_count() == old(self).spec_count(),
            old(self).spec_level() >= MAX_LEVEL ==> r == Err::<(), StoreError>(StoreError::Validation),
            old(self).spec_level() < MAX_LEVEL ==> r is Ok,
            forall|c: int|
                0 <= c < old(self).spec_blocks().len() && c != old(self).spec_split()
                    ==> #[trigger] final(self).spec_blocks()[c] == old(self).spec_blocks()[c],
            r is Ok ==> final(self).spec_blocks().len() == old(self).spec_blocks().len() + 1 && (
            final(self).spec_level() as nat,
            final(self).spec_split() as nat,
            ) == advance(old(self).spec_level() as nat, old(self).spec_split() as nat),
            r is Err ==> final(self).spec_blocks().len() == old(self).spec_blocks().len() && final(self).spec_level()
                == old(self).spec_level() && final(self).spec_split() == old(self).spec_split(),
    {
        if self.level >= MAX_LEVEL {
            return Err(StoreError::Validation);
        }
        let ghost before = *self;
        let s = self.split as usize;
        let e = exp2_exec(self.level);
        let nl: u8;
        let ns: u32;
        if self.split as u64 + 1 == e {
            nl = self.level + 1;
            ns = 0;
        } else {
            nl = self.level;
            ns = self.split + 1;
        }
        proof {
            lemma_exp2_le(self.level as nat);
            assert(exp2(self.level as nat + 1) == 2 * exp2(self.level as nat));
        }
        let target = s + e as usize;
        let ghost ob = self.blocks@[s as int];
        let ghost gl = nl as nat;
        let ghost gs = ns as nat;
        assert(ob.wf());
        let mut nb = SubBucketer::new();
        let mut stays: Vec<Option<Record>> = Vec::new();
        let mut j: usize = 0;
        while j < MAX_SUB_BUCKETS
            invariant
                *self == before,
                before.wf(),
                before.level < MAX_LEVEL,
                s < self.blocks@.len(),
                ob == self.blocks@[s as int],
                ob.wf(),
                forall|i: int| 0 <= i < MAX_SUB_BUCKETS ==> #[trigger] slot_ok(ob, i),
                nl <= MAX_LEVEL,
                ns < exp2(nl as nat),
                gl == nl,
                gs == ns,
                j <= MAX_SUB_BUCKETS,
                nb.wf(),
                nested(nb.dir(), ob.dir()),
                stays@.len() == j,
                forall|i: int| 0 <= i < j ==> #[trigger] slot_ok(nb, i),
                forall|i: int|
                    0 <= i < j ==> #[trigger] block_pairs(nb, i) == keep_where(
                        block_pairs(ob, i),
                        gl,
                        gs,
                        target as int,
                    ),
                forall|i: int| j <= i < MAX_SUB_BUCKETS ==> !is_live(#[trigger] nb.dir()[i]),
                forall|i: int|
                    0 <= i < j ==> match #[trigger] stays@[i] {
                        Some(st) => is_live(ob.dir()[i]) && st.wf() && st@ == keep_where(
                            block_pairs(ob, i),
                            gl,
                            gs,
                            s as int,
                        ),
                        None => !is_live(ob.dir()[i]),
                    },
            decreases MAX_SUB_BUCKETS - j,
        {
            let ghost before_nb = nb;
            let st = split_slot(&self.blocks[s], &mut nb, j as u8, nl, ns, s, target);
            proof {
                lemma_slots_kept_except(nb, before_nb, j as int);
            }
            stays.push(st);
            j += 1;
        }
        // Every moved record has its place in the new block; shrink the
        // records that stay, which always fit where they are.
        let mut j: usize = 0;
        while j < MAX_SUB_BUCKETS
            invariant
                before.wf(),
                self.count == before.count,
                self.level == before.level,
                self.split == before.split,
                self.blocks@.len() == before.blocks@.len(),
                s < self.blocks@.len(),
                s == before.split,
                ob == before.blocks@[s as int],
                forall|i: int| 0 <= i < MAX_SUB_BUCKETS ==> #[trigger] slot_ok(ob, i),
                forall|c: int| 0 <= c < self.blocks@.len() && c != s ==> #[trigger] self.blocks@[c] == before.blocks@[c],
                nl <= MAX_LEVEL,
                ns < exp2(nl as nat),
                gl == nl,
                gs == ns,
                j <= MAX_SUB_BUCKETS,
                stays@.len() == MAX_SUB_BUCKETS,
                forall|i: int|
                    0 <= i < MAX_SUB_BUCKETS ==> match #[trigger] stays@[i] {
                        Some(st) => is_live(ob.dir()[i]) && st.wf() && st@ == keep_where(
                            block_pairs(ob, i),
                            gl,
                            gs,
                            s as int,
                        ),
                        None => !is_live(ob.dir()[i]),
                    },
                self.blocks@[s as int].wf(),
                forall|i: int| 0 <= i < j ==> #[trigger] slot_ok(self.blocks@[s as int], i),
                forall|i: int|
                    0 <= i < j ==> #[trigger] block_pairs(
                        self.blocks@[s as int],
                        i,
                    ) == keep_where(block_pairs(ob, i), gl, gs, s as int),
                forall|i: int|
                    j <= i < MAX_SUB_BUCKETS ==> #[trigger] self.blocks@[s as int].dir()[i] == ob.dir()[i],
                forall|i: int|
                    j <= i < MAX_SUB_BUCKETS && is_live(ob.dir()[i]) ==> #[trigger] self.blocks@[s as int].payload(i)
                        == ob.payload(i),
            decreases MAX_SUB_BUCKETS - j,
        {
            let ghost cur = self.blocks@[s as int];
            proof {
                lemma_slot_ok(ob, j as int);
                lemma_slot_kept(cur, ob, j as int);
            }
            match &stays[j] {
                Some(st) => {
                    proof {
                        let p = block_pairs(ob, j as int);
                        lemma_keep_where(p, gl, gs, s as int);
                    }
                    shrink_slot(&mut self.blocks[s], j as u8, st);
                    proof {
                        lemma_slots_kept_except(self.blocks@[s as int], cur, j as int);
                    }
                },
                None => {
                    assert(block_pairs(ob, j as int) =~= Seq::<(Seq<char>, Seq<char>)>::empty());
                    assert(keep_where(Seq::<(Seq<char>, Seq<char>)>::empty(), gl, gs, s as int) =~= Seq::<
                        (Seq<char>, Seq<char>),
                    >::empty());
                },
            }
            j += 1;
        }
        let ghost mid = *self;
        let ghost gnb = nb;
        self.blocks.push(nb);
        self.level = nl;
        self.split = ns;
        proof {
            assert(mid.blocks@ =~= before.blocks@.update(s as int, mid.blocks@[s as int]));
            lemma_split_counted(before, self.blocks@, mid.blocks@[s as int], gnb, gl, gs);
            let old_len = before.blocks@.len() as int;
            assert(target == old_len);
            assert(self.blocks@.len() == exp2(nl as nat) + ns);
            assert forall|c: int, i: int| 0 <= c < self.spec_blocks().len() && 0 <= i < MAX_SUB_BUCKETS implies #[trigger] slot_ok(
                self.spec_blocks()[c],
                i,
            ) by {
                if c < old_len && c != s {
                    assert(self.blocks@[c] == before.blocks@[c]);
                } else if c == s {
                    assert(self.blocks@[c] == mid.blocks@[c]);
                }
            }
            assert forall|c: int| 0 <= c < self.spec_blocks().len() implies (#[trigger] self.spec_blocks()[c]).wf() by {
                if c < old_len && c != s {
                    assert(self.blocks@[c] == before.blocks@[c]);
                } else if c == s {
                    assert(self.blocks@[c] == mid.blocks@[c]);
                }
            }
            assert forall|k: Seq<char>| #[trigger] self.lookup_key(k) == before.lookup_key(k) by {
                let h = key_hash(k);
                lemma_split_address(h, before.level as nat, before.split as nat);
                lemma_total_coverage(h, before.level as nat, before.split as nat);
                lemma_total_coverage(h, nl as nat, ns as nat);
                let (c, i) = before.slot_of(k);
                let (c2, i2) = self.slot_of(k);
                let p = block_pairs(ob, i2);
                if c2 == s as int || c2 == old_len {
                    lemma_slot_ok(ob, i2);
                    if is_live(ob.dir()[i2]) {
                        lemma_keep_lookup(p, gl, gs, c2, k);
                    } else {
                        assert(p =~= Seq::<(Seq<char>, Seq<char>)>::empty());
                        assert(keep_where(p, gl, gs, c2) =~= p);
                    }
                    if c2 == s as int {
                        assert(self.blocks@[c2] == mid.blocks@[c2]);
                    } else {
                        assert(self.blocks@[c2] == nb);
                    }
                } else {
                    assert(self.blocks@[c2] == before.blocks@[c2]);
                }
            }
            assert(self.view() =~= before.view());
        }
        Ok(())
    }
}

/// Powers of two up to the largest level stay within 32 bits.
proof fn lemma_exp2_le(k: nat)
    requires
        k <= MAX_LEVEL,
    ensures
        exp2(k) <= exp2(MAX_LEVEL as nat),
        exp2(MAX_LEVEL as nat) == 0x1000000,
    decreases k,
{
    reveal_with_fuel(exp2, 25);
    if k < MAX_LEVEL {
        lemma_exp2_monotonic(k, MAX_LEVEL as nat);
    }
}

/// `exp2` grows with its exponent.
proof fn lemma_exp2_monotonic(a: nat, b: nat)
    requires
        a <= b,
    ensures
        exp2(a) <= exp2(b),
    decreases b - a,
{
    if a < b {
        lemma_exp2_monotonic(a, (b - 1) as nat);
        lemma_exp2_pos((b - 1) as nat);
        assert(exp2(b) == 2 * exp2((b - 1) as nat));
    }
}

} // verus!
