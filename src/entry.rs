use vstd::prelude::*;

use crate::bytes::{be16, read_be_u16, write_be_u16};
use crate::codec::{decode, decode_spec, encodable, encode, encode_spec};
use crate::helpers::{ceil_log2, exp2, lemma_next_pow2, next_pow2, size_class};
use crate::record::Record;
use crate::layout::{BLOCK_SIZE, ENTRY_SIZE, MAX_DATA_SIZE, MAX_SUB_BUCKETS, SUB_BUCKET_HEADER_SIZE};
use crate::StoreError;

verus! {

/// One directory entry: where a slot's payload starts and how long it is.
/// A size of zero marks an empty slot.
#[derive(Clone, Copy, Debug, PartialEq, Eq, Structural)]
pub struct Entry {
    pub offset: u16,
    pub size: u16,
}

impl Entry {
    /// The byte range that holds the payload.
    pub fn to_range(&self) -> (r: std::ops::Range<usize>)
        ensures
            r.start == self.offset,
            r.end == self.offset + self.size,
    {
        (self.offset as usize)..(self.offset as usize + self.size as usize)
    }
}

/// The entry stored for slot `i` in the block bytes `b`.
pub open spec fn entry_of(b: Seq<u8>, i: int) -> Entry {
    Entry { offset: be16(b, 4 * i) as u16, size: be16(b, 4 * i + 2) as u16 }
}

/// A slot is live when its entry records a payload.
pub open spec fn is_live(e: Entry) -> bool {
    e.size != 0
}

/// End (exclusive) of the range a live entry reserves: its size rounded up to
/// the size class.
pub open spec fn reserved_end(e: Entry) -> int {
    e.offset + next_pow2(e.size as nat)
}

/// Every live entry lies in the payload region, and no two live entries'
/// reserved ranges overlap.
pub open spec fn dir_wf(d: Seq<Entry>) -> bool {
    &&& d.len() == MAX_SUB_BUCKETS
    &&& forall|i: int|
        0 <= i < d.len() && is_live(#[trigger] d[i]) ==> SUB_BUCKET_HEADER_SIZE <= d[i].offset
            && reserved_end(d[i]) <= MAX_DATA_SIZE
    &&& forall|i: int, j: int|
        0 <= i < d.len() && 0 <= j < d.len() && i != j && is_live(#[trigger] d[i]) && is_live(
            #[trigger] d[j],
        ) ==> reserved_end(d[i]) <= d[j].offset || reserved_end(d[j]) <= d[i].offset
}

/// The directory with slot `skip` cleared, when `skip` names a slot.
pub open spec fn without(d: Seq<Entry>, skip: int) -> Seq<Entry> {
    if 0 <= skip < d.len() {
        d.update(skip, Entry { offset: 0, size: 0 })
    } else {
        d
    }
}

/// Inserts slot `i` into `s`, before the first slot whose offset is larger:
/// slots with equal offsets keep their order.
pub open spec fn insert_by_offset(d: Seq<Entry>, i: u8, s: Seq<u8>) -> Seq<u8>
    decreases s.len(),
{
    if s.len() == 0 {
        seq![i]
    } else if d[i as int].offset < d[s[0] as int].offset {
        seq![i] + s
    } else {
        seq![s[0]] + insert_by_offset(d, i, s.drop_first())
    }
}

/// The live slots among the first `n`, in ascending order of offset (a stable
/// sort, so equal offsets stay in slot order).
pub open spec fn live_by_offset(d: Seq<Entry>, n: int) -> Seq<u8>
    decreases n,
{
    if n <= 0 {
        seq![]
    } else if !is_live(d[n - 1]) {
        live_by_offset(d, n - 1)
    } else {
        insert_by_offset(d, (n - 1) as u8, live_by_offset(d, n - 1))
    }
}

/// Scans slots in order: returns `next` as soon as `want` bytes fit before the
/// current slot's offset, and otherwise moves `next` past its reserved range.
pub open spec fn first_fit(d: Seq<Entry>, s: Seq<u8>, next: int, want: int) -> int
    decreases s.len(),
{
    if s.len() == 0 {
        next
    } else if next + want <= d[s[0] as int].offset {
        next
    } else {
        first_fit(d, s.drop_first(), reserved_end(d[s[0] as int]), want)
    }
}

/// Where `want` bytes would be placed in the directory `d`, if anywhere.
pub open spec fn find_space_spec(d: Seq<Entry>, want: nat) -> Option<int> {
    let p = next_pow2(want) as int;
    let o = first_fit(d, live_by_offset(d, MAX_SUB_BUCKETS as int), SUB_BUCKET_HEADER_SIZE as int, p);
    if o + p <= MAX_DATA_SIZE {
        Some(o)
    } else {
        None
    }
}

/// The range `[o, o + p)` lies in the payload region and overlaps no live
/// entry's reserved range.
pub open spec fn placement_free(d: Seq<Entry>, o: int, p: int) -> bool {
    &&& SUB_BUCKET_HEADER_SIZE <= o
    &&& o + p <= MAX_DATA_SIZE
    &&& forall|j: int|
        0 <= j < d.len() && is_live(#[trigger] d[j]) ==> o + p <= d[j].offset || reserved_end(d[j])
            <= o
}

/// The slots of `s` appear in non-decreasing order of offset.
pub open spec fn sorted_by_offset(d: Seq<Entry>, s: Seq<u8>) -> bool {
    forall|a: int, b: int|
        0 <= a < b < s.len() ==> d[#[trigger] s[a] as int].offset <= d[#[trigger] s[b] as int].offset
}

/// `insert_by_offset` places `i` at the first position whose slot has a larger
/// offset.
pub proof fn lemma_insert_at(d: Seq<Entry>, i: u8, s: Seq<u8>, j: int)
    requires
        0 <= j <= s.len(),
        forall|k: int| 0 <= k < j ==> !(d[i as int].offset < d[#[trigger] s[k] as int].offset),
        j < s.len() ==> d[i as int].offset < d[s[j] as int].offset,
    ensures
        insert_by_offset(d, i, s) == s.insert(j, i),
    decreases s.len(),
{
    if s.len() == 0 {
        assert(seq![i] =~= s.insert(j, i));
    } else if j == 0 {
        assert(seq![i] + s =~= s.insert(j, i));
    } else {
        assert(!(d[i as int].offset < d[s[0] as int].offset));
        let t = s.drop_first();
        assert forall|k: int| 0 <= k < j - 1 implies !(d[i as int].offset < d[#[trigger] t[k] as int].offset) by {
            assert(t[k] == s[k + 1]);
        }
        lemma_insert_at(d, i, t, j - 1);
        assert(seq![s[0]] + t.insert(j - 1, i) =~= s.insert(j, i));
    }
}

/// Membership, length and order after `insert_by_offset`.
pub proof fn lemma_insert_props(d: Seq<Entry>, i: u8, s: Seq<u8>)
    ensures
        insert_by_offset(d, i, s).len() == s.len() + 1,
        forall|x: u8| #[trigger] insert_by_offset(d, i, s).contains(x) <==> (x == i || s.contains(x)),
        sorted_by_offset(d, s) ==> sorted_by_offset(d, insert_by_offset(d, i, s)),
        s.no_duplicates() && !s.contains(i) ==> insert_by_offset(d, i, s).no_duplicates(),
    decreases s.len(),
{
    let r = insert_by_offset(d, i, s);
    if s.len() == 0 {
        assert(r =~= seq![i]);
        assert forall|x: u8| #[trigger] r.contains(x) <==> (x == i || s.contains(x)) by {
            if r.contains(x) {
                assert(r[0] == x);
            }
            if x == i {
                assert(r[0] == x);
            }
        }
    } else if d[i as int].offset < d[s[0] as int].offset {
        assert forall|x: u8| #[trigger] r.contains(x) <==> (x == i || s.contains(x)) by {
            if r.contains(x) {
                let k = choose|k: int| 0 <= k < r.len() && r[k] == x;
                if k > 0 {
                    assert(s[k - 1] == x);
                }
            }
            if x == i {
                assert(r[0] == x);
            }
            if s.contains(x) {
                let k = choose|k: int| 0 <= k < s.len() && s[k] == x;
                assert(r[k + 1] == x);
            }
        }
        if sorted_by_offset(d, s) {
            assert forall|a: int, b: int|
                0 <= a < b < r.len() implies d[#[trigger] r[a] as int].offset <= d[#[trigger] r[b] as int].offset by {
                if a == 0 {
                    assert(r[b] == s[b - 1]);
                    if b - 1 > 0 {
                        assert(d[s[0] as int].offset <= d[s[b - 1] as int].offset);
                    }
                } else {
                    assert(r[a] == s[a - 1] && r[b] == s[b - 1]);
                }
            }
        }
        if s.no_duplicates() && !s.contains(i) {
            assert forall|a: int, b: int| 0 <= a < r.len() && 0 <= b < r.len() && a != b implies r[a] != r[b] by {
                if a == 0 {
                    assert(r[b] == s[b - 1]);
                } else if b == 0 {
                    assert(r[a] == s[a - 1]);
                } else {
                    assert(r[a] == s[a - 1] && r[b] == s[b - 1]);
                }
            }
        }
    } else {
        let t = s.drop_first();
        let rt = insert_by_offset(d, i, t);
        lemma_insert_props(d, i, t);
        assert(r == seq![s[0]] + rt);
        assert forall|x: u8| #[trigger] r.contains(x) <==> (x == i || s.contains(x)) by {
            if r.contains(x) {
                let k = choose|k: int| 0 <= k < r.len() && r[k] == x;
                if k > 0 {
                    assert(rt[k - 1] == x);
                    assert(rt.contains(x));
                    if t.contains(x) {
                        let m = choose|m: int| 0 <= m < t.len() && t[m] == x;
                        assert(s[m + 1] == x);
                    }
                } else {
                    assert(s[0] == x);
                }
            }
            if x == i {
                assert(rt.contains(x));
                let k = choose|k: int| 0 <= k < rt.len() && rt[k] == x;
                assert(r[k + 1] == x);
            }
            if s.contains(x) {
                let k = choose|k: int| 0 <= k < s.len() && s[k] == x;
                if k == 0 {
                    assert(r[0] == x);
                } else {
                    assert(t[k - 1] == x);
                    assert(rt.contains(x));
                    let m = choose|m: int| 0 <= m < rt.len() && rt[m] == x;
                    assert(r[m + 1] == x);
                }
            }
        }
        if sorted_by_offset(d, s) {
            assert(sorted_by_offset(d, t)) by {
                assert forall|a: int, b: int|
                    0 <= a < b < t.len() implies d[#[trigger] t[a] as int].offset <= d[#[trigger] t[b] as int].offset by {
                    assert(t[a] == s[a + 1] && t[b] == s[b + 1]);
                }
            }
            assert forall|a: int, b: int|
                0 <= a < b < r.len() implies d[#[trigger] r[a] as int].offset <= d[#[trigger] r[b] as int].offset by {
                if a == 0 {
                    let x = rt[b - 1];
                    assert(rt.contains(x));
                    if x != i {
                        assert(t.contains(x));
                        let m = choose|m: int| 0 <= m < t.len() && t[m] == x;
                        assert(s[m + 1] == x);
                        assert(d[s[0] as int].offset <= d[s[m + 1] as int].offset);
                    }
                } else {
                    assert(r[a] == rt[a - 1] && r[b] == rt[b - 1]);
                }
            }
        }
        if s.no_duplicates() && !s.contains(i) {
            assert(!t.contains(i)) by {
                if t.contains(i) {
                    let m = choose|m: int| 0 <= m < t.len() && t[m] == i;
                    assert(s[m + 1] == i);
                }
            }
            assert(t.no_duplicates()) by {
                assert forall|a: int, b: int| 0 <= a < t.len() && 0 <= b < t.len() && a != b implies t[a] != t[b] by {
                    assert(t[a] == s[a + 1] && t[b] == s[b + 1]);
                }
            }
            assert forall|a: int, b: int| 0 <= a < r.len() && 0 <= b < r.len() && a != b implies r[a] != r[b] by {
                if a == 0 || b == 0 {
                    let k = if a == 0 { b } else { a };
                    let x = rt[k - 1];
                    assert(rt.contains(x));
                    if x == s[0] {
                        if x == i {
                        } else {
                            assert(t.contains(x));
                            let m = choose|m: int| 0 <= m < t.len() && t[m] == x;
                            assert(s[m + 1] == x);
                        }
                    }
                } else {
                    assert(r[a] == rt[a - 1] && r[b] == rt[b - 1]);
                }
            }
        }
    }
}

/// The live slots below `n`, ordered by offset: exactly the live slots, each
/// once, sorted.
pub proof fn lemma_live_by_offset(d: Seq<Entry>, n: int)
    requires
        0 <= n <= d.len() <= 256,
    ensures
        forall|x: u8| #[trigger] live_by_offset(d, n).contains(x) <==> (x < n && is_live(d[x as int])),
        sorted_by_offset(d, live_by_offset(d, n)),
        live_by_offset(d, n).no_duplicates(),
    decreases n,
{
    if n > 0 {
        lemma_live_by_offset(d, n - 1);
        if is_live(d[n - 1]) {
            let s = live_by_offset(d, n - 1);
            lemma_insert_props(d, (n - 1) as u8, s);
        }
    }
}

/// Scanning live, distinct slots sorted by offset in a well-formed directory,
/// starting below all of them, finds a range that overlaps none of them.
pub proof fn lemma_first_fit_clear(d: Seq<Entry>, t: Seq<u8>, next: int, p: int)
    requires
        dir_wf(d),
        p >= 1,
        SUB_BUCKET_HEADER_SIZE <= next,
        sorted_by_offset(d, t),
        t.no_duplicates(),
        forall|k: int| 0 <= k < t.len() ==> is_live(#[trigger] d[t[k] as int]),
        forall|k: int| 0 <= k < t.len() ==> next <= d[#[trigger] t[k] as int].offset,
    ensures
        next <= first_fit(d, t, next, p),
        forall|k: int|
            0 <= k < t.len() ==> first_fit(d, t, next, p) + p <= d[#[trigger] t[k] as int].offset
                || reserved_end(d[t[k] as int]) <= first_fit(d, t, next, p),
    decreases t.len(),
{
    if t.len() > 0 {
        let e = d[t[0] as int];
        if next + p <= e.offset {
            assert forall|k: int| 0 <= k < t.len() implies next + p <= d[#[trigger] t[k] as int].offset by {
                if k > 0 {
                    assert(d[t[0] as int].offset <= d[t[k] as int].offset);
                }
            }
        } else {
            let rest = t.drop_first();
            lemma_next_pow2(e.size as nat);
            let nn = reserved_end(e);
            assert forall|k: int| 0 <= k < rest.len() implies nn <= d[#[trigger] rest[k] as int].offset by {
                assert(rest[k] == t[k + 1]);
                assert(t[0] != t[k + 1]);
                assert(d[t[0] as int].offset <= d[t[k + 1] as int].offset);
                lemma_next_pow2(d[t[k + 1] as int].size as nat);
            }
            assert(sorted_by_offset(d, rest)) by {
                assert forall|a: int, b: int|
                    0 <= a < b < rest.len() implies d[#[trigger] rest[a] as int].offset <= d[#[trigger] rest[b] as int].offset by {
                    assert(rest[a] == t[a + 1] && rest[b] == t[b + 1]);
                }
            }
            assert(rest.no_duplicates()) by {
                assert forall|a: int, b: int| 0 <= a < rest.len() && 0 <= b < rest.len() && a != b implies rest[a] != rest[b] by {
                    assert(rest[a] == t[a + 1] && rest[b] == t[b + 1]);
                }
            }
            assert forall|k: int| 0 <= k < rest.len() implies is_live(#[trigger] d[rest[k] as int]) by {
                assert(rest[k] == t[k + 1]);
            }
            lemma_first_fit_clear(d, rest, nn, p);
            assert forall|k: int|
                0 <= k < t.len() implies first_fit(d, t, next, p) + p <= d[#[trigger] t[k] as int].offset
                || reserved_end(d[t[k] as int]) <= first_fit(d, t, next, p) by {
                if k > 0 {
                    assert(rest[k - 1] == t[k]);
                }
            }
        }
    }
}

/// On a well-formed directory, a placement that `find_space_spec` finds is
/// free: it lies in the payload region and overlaps no live reservation.
pub proof fn lemma_find_space_free(d: Seq<Entry>, want: nat)
    requires
        dir_wf(d),
        want >= 1,
    ensures
        find_space_spec(d, want) matches Some(o) ==> placement_free(d, o, next_pow2(want) as int),
{
    let s = live_by_offset(d, MAX_SUB_BUCKETS as int);
    let p = next_pow2(want) as int;
    lemma_next_pow2(want);
    lemma_live_by_offset(d, MAX_SUB_BUCKETS as int);
    assert forall|k: int| 0 <= k < s.len() implies is_live(#[trigger] d[s[k] as int]) by {
        assert(s.contains(s[k]));
    }
    assert forall|k: int| 0 <= k < s.len() implies SUB_BUCKET_HEADER_SIZE <= d[#[trigger] s[k] as int].offset by {
        assert(s.contains(s[k]));
    }
    lemma_first_fit_clear(d, s, SUB_BUCKET_HEADER_SIZE as int, p);
    let o = first_fit(d, s, SUB_BUCKET_HEADER_SIZE as int, p);
    assert forall|j: int| 0 <= j < d.len() && is_live(#[trigger] d[j]) implies o + p <= d[j].offset
        || reserved_end(d[j]) <= o by {
        assert(s.contains(j as u8));
        let k = choose|k: int| 0 <= k < s.len() && s[k] == j as u8;
    }
}

/// Below the place the scan picks, no offset is free: every offset passed
/// over either overlaps a live reservation or leaves too little room before
/// the next one.
pub proof fn lemma_first_fit_least(d: Seq<Entry>, t: Seq<u8>, next: int, p: int)
    requires
        dir_wf(d),
        p >= 1,
        SUB_BUCKET_HEADER_SIZE <= next,
        sorted_by_offset(d, t),
        t.no_duplicates(),
        forall|k: int| 0 <= k < t.len() ==> is_live(#[trigger] d[t[k] as int]),
        forall|k: int| 0 <= k < t.len() ==> next <= d[#[trigger] t[k] as int].offset,
        forall|o: int| o < next ==> !placement_free(d, o, p),
    ensures
        forall|o: int| o < first_fit(d, t, next, p) ==> !placement_free(d, o, p),
    decreases t.len(),
{
    if t.len() > 0 {
        let e = d[t[0] as int];
        if next + p > e.offset {
            let rest = t.drop_first();
            lemma_next_pow2(e.size as nat);
            let nn = reserved_end(e);
            assert forall|o: int| o < nn implies !placement_free(d, o, p) by {
                if o >= next {
                    let j = t[0] as int;
                    assert(is_live(d[j]));
                    assert(!(o + p <= d[j].offset || reserved_end(d[j]) <= o));
                }
            }
            assert forall|k: int| 0 <= k < rest.len() implies nn <= d[#[trigger] rest[k] as int].offset by {
                assert(rest[k] == t[k + 1]);
                assert(t[0] != t[k + 1]);
                assert(d[t[0] as int].offset <= d[t[k + 1] as int].offset);
                lemma_next_pow2(d[t[k + 1] as int].size as nat);
            }
            assert(sorted_by_offset(d, rest)) by {
                assert forall|a: int, b: int|
                    0 <= a < b < rest.len() implies d[#[trigger] rest[a] as int].offset <= d[#[trigger] rest[b] as int].offset by {
                    assert(rest[a] == t[a + 1] && rest[b] == t[b + 1]);
                }
            }
            assert(rest.no_duplicates()) by {
                assert forall|a: int, b: int| 0 <= a < rest.len() && 0 <= b < rest.len() && a != b implies rest[a] != rest[b] by {
                    assert(rest[a] == t[a + 1] && rest[b] == t[b + 1]);
                }
            }
            assert forall|k: int| 0 <= k < rest.len() implies is_live(#[trigger] d[rest[k] as int]) by {
                assert(rest[k] == t[k + 1]);
            }
            lemma_first_fit_least(d, rest, nn, p);
        }
    }
}

/// On a well-formed directory, `find_space_spec` finds the least free
/// offset for the rounded size, and finds nothing only when no offset is
/// free.
pub proof fn lemma_find_space_least(d: Seq<Entry>, want: nat)
    requires
        dir_wf(d),
        want >= 1,
    ensures
        find_space_spec(d, want) matches Some(o) ==> forall|o2: int|
            o2 < o ==> !placement_free(d, o2, next_pow2(want) as int),
        find_space_spec(d, want) is None ==> forall|o2: int| !placement_free(d, o2, next_pow2(want) as int),
{
    let s = live_by_offset(d, MAX_SUB_BUCKETS as int);
    let p = next_pow2(want) as int;
    lemma_next_pow2(want);
    lemma_live_by_offset(d, MAX_SUB_BUCKETS as int);
    assert forall|k: int| 0 <= k < s.len() implies is_live(#[trigger] d[s[k] as int]) by {
        assert(s.contains(s[k]));
    }
    assert forall|k: int| 0 <= k < s.len() implies SUB_BUCKET_HEADER_SIZE <= d[#[trigger] s[k] as int].offset by {
        assert(s.contains(s[k]));
    }
    lemma_first_fit_least(d, s, SUB_BUCKET_HEADER_SIZE as int, p);
    lemma_first_fit_clear(d, s, SUB_BUCKET_HEADER_SIZE as int, p);
}

/// In a directory with no live slot, a payload whose size class fits the
/// payload region goes right after the directory.
pub proof fn lemma_find_space_empty(d: Seq<Entry>, want: nat)
    requires
        d.len() == MAX_SUB_BUCKETS,
        forall|i: int| 0 <= i < MAX_SUB_BUCKETS ==> !is_live(#[trigger] d[i]),
        next_pow2(want) <= MAX_DATA_SIZE - SUB_BUCKET_HEADER_SIZE,
    ensures
        find_space_spec(d, want) == Some(SUB_BUCKET_HEADER_SIZE as int),
{
    let s = live_by_offset(d, MAX_SUB_BUCKETS as int);
    lemma_live_by_offset(d, MAX_SUB_BUCKETS as int);
    if s.len() > 0 {
        assert(s.contains(s[0]));
    }
}

/// Clearing one slot keeps a directory well formed.
pub proof fn lemma_without_wf(d: Seq<Entry>, skip: int)
    requires
        dir_wf(d),
    ensures
        dir_wf(without(d, skip)),
        without(d, skip).len() == d.len(),
{
    let w = without(d, skip);
    assert forall|i: int, j: int|
        0 <= i < w.len() && 0 <= j < w.len() && i != j && is_live(#[trigger] w[i]) && is_live(#[trigger] w[j])
        implies reserved_end(w[i]) <= w[j].offset || reserved_end(w[j]) <= w[i].offset by {
        assert(w[i] == d[i] && w[j] == d[j]);
    }
}


/// Where a payload of `size` bytes for slot `index` goes: in place when the
/// slot is live and the payload fits its current size class, else wherever
/// `find_space_spec` places it with the slot's own reservation set aside.
pub open spec fn put_place(d: Seq<Entry>, index: int, size: nat) -> Option<int> {
    if is_live(d[index]) && size <= next_pow2(d[index].size as nat) {
        Some(d[index].offset as int)
    } else {
        find_space_spec(without(d, index), size)
    }
}

/// Sum of the sizes of the live entries among the first `n` slots.
pub open spec fn live_total(d: Seq<Entry>, n: int) -> int
    decreases n,
{
    if n <= 0 {
        0
    } else {
        live_total(d, n - 1) + d[n - 1].size
    }
}

/// A block's slot as read back: `None` for a corrupt payload, `Some(None)`
/// for an empty slot, `Some(Some(s))` for a record with pairs `s`.
pub open spec fn slot_spec(blk: SubBucketer, i: int) -> Option<Option<Seq<(Seq<char>, Seq<char>)>>> {
    let e = blk.dir()[i];
    if !is_live(e) {
        Some(None)
    } else if e.offset + e.size > BLOCK_SIZE {
        None
    } else {
        match decode_spec(blk.payload(i)) {
            Some(s) => Some(Some(s)),
            None => None,
        }
    }
}


/// Bytes past the directory are the same in both blocks, so live payloads
/// whose entries agree are the same.
proof fn lemma_payload_kept(a: SubBucketer, b: SubBucketer, j: int)
    requires
        a.wf(),
        b.inv(),
        0 <= j < MAX_SUB_BUCKETS,
        is_live(a.dir()[j]),
        b.dir()[j] == a.dir()[j],
        forall|k: int| SUB_BUCKET_HEADER_SIZE <= k < BLOCK_SIZE ==> #[trigger] b@[k] == a@[k],
    ensures
        b.payload(j) == a.payload(j),
{
    let e = a.dir()[j];
    lemma_next_pow2(e.size as nat);
    assert(b.payload(j) =~= a.payload(j)) by {
        assert forall|m: int| 0 <= m < e.size implies #[trigger] b.payload(j)[m] == a.payload(j)[m] by {
            assert(b@[e.offset + m] == a@[e.offset + m]);
        }
    }
}

/// In a well-formed directory, a payload larger than the payload region has
/// no place.
proof fn lemma_put_bounds(d: Seq<Entry>, index: int, size: nat)
    requires
        dir_wf(d),
        0 <= index < MAX_SUB_BUCKETS,
        size >= 1,
    ensures
        size > MAX_DATA_SIZE - SUB_BUCKET_HEADER_SIZE ==> put_place(d, index, size) is None,
{
    let w = without(d, index);
    lemma_without_wf(d, index);
    lemma_next_pow2(size);
    if is_live(d[index]) {
        lemma_next_pow2(d[index].size as nat);
    }
    let s = live_by_offset(w, MAX_SUB_BUCKETS as int);
    let p = next_pow2(size) as int;
    lemma_live_by_offset(w, MAX_SUB_BUCKETS as int);
    assert forall|k: int| 0 <= k < s.len() implies is_live(#[trigger] w[s[k] as int]) by {
        assert(s.contains(s[k]));
    }
    assert forall|k: int| 0 <= k < s.len() implies SUB_BUCKET_HEADER_SIZE <= w[#[trigger] s[k] as int].offset by {
        assert(s.contains(s[k]));
    }
    lemma_first_fit_clear(w, s, SUB_BUCKET_HEADER_SIZE as int, p);
}

/// The place `put_place` picks is free of the other slots' reservations.
proof fn lemma_put_place_free(d: Seq<Entry>, index: int, size: nat)
    requires
        dir_wf(d),
        0 <= index < MAX_SUB_BUCKETS,
        size >= 1,
    ensures
        put_place(d, index, size) matches Some(o) ==> placement_free(
            without(d, index),
            o,
            next_pow2(size) as int,
        ),
{
    lemma_without_wf(d, index);
    if is_live(d[index]) && size <= next_pow2(d[index].size as nat) {
        let e = d[index];
        let w = without(d, index);
        lemma_next_pow2(size);
        assert(size <= exp2(ceil_log2(e.size as nat)));
        assert forall|j: int| 0 <= j < w.len() && is_live(#[trigger] w[j]) implies e.offset + next_pow2(size)
            <= w[j].offset || reserved_end(w[j]) <= e.offset by {
            assert(w[j] == d[j]);
            assert(j != index);
        }
    } else {
        lemma_find_space_free(without(d, index), size);
    }
}

/// Writing a slot's entry at a free place keeps the directory well formed.
proof fn lemma_put_wf(d: Seq<Entry>, index: int, o: int, size: nat)
    requires
        dir_wf(d),
        0 <= index < MAX_SUB_BUCKETS,
        1 <= size <= 0xffff,
        0 <= o <= 0xffff,
        placement_free(without(d, index), o, next_pow2(size) as int),
    ensures
        dir_wf(d.update(index, Entry { offset: o as u16, size: size as u16 })),
{
    let n = d.update(index, Entry { offset: o as u16, size: size as u16 });
    let w = without(d, index);
    assert forall|i: int, j: int|
        0 <= i < n.len() && 0 <= j < n.len() && i != j && is_live(#[trigger] n[i]) && is_live(#[trigger] n[j])
        implies reserved_end(n[i]) <= n[j].offset || reserved_end(n[j]) <= n[i].offset by {
        if i == index {
            assert(w[j] == n[j]);
        } else if j == index {
            assert(w[i] == n[i]);
        } else {
            assert(n[i] == d[i] && n[j] == d[j]);
        }
    }
    assert forall|i: int| 0 <= i < n.len() && is_live(#[trigger] n[i]) implies SUB_BUCKET_HEADER_SIZE <= n[i].offset
        && reserved_end(n[i]) <= MAX_DATA_SIZE by {
        if i != index {
            assert(n[i] == d[i]);
        }
    }
}

/// Borrows `b[from..to]`.
fn slice_range(b: &[u8], from: usize, to: usize) -> (r: &[u8])
    requires
        from <= to <= b@.len(),
    ensures
        r@ == b@.subrange(from as int, to as int),
{
    let (_, tail) = b.split_at(from);
    let (mid, _) = tail.split_at(to - from);
    assert(mid@ =~= b@.subrange(from as int, to as int));
    mid
}


/// What writing the bytes `b` for slot `index` at offset `o` does: the
/// block stays well formed, the slot's entry points at `b`, and no byte
/// outside the slot's entry and the new payload changes.
pub open spec fn write_post(before: SubBucketer, after: SubBucketer, index: int, o: int, b: Seq<u8>) -> bool {
    &&& after.wf()
    &&& after.dir() == before.dir().update(index, Entry { offset: o as u16, size: b.len() as u16 })
    &&& after.payload(index) == b
    &&& forall|j: int|
        0 <= j < MAX_SUB_BUCKETS && j != index && is_live(before.dir()[j]) ==> #[trigger] after.payload(j)
            == before.payload(j)
    &&& forall|k: int|
        0 <= k < BLOCK_SIZE && !(4 * index <= k < 4 * index + 4) && !(o <= k < o + b.len()) ==> #[trigger] after@[k]
            == before@[k]
}

/// What storing the pairs `m` in slot `index` does to a well-formed block:
/// see `SubBucketer::put_sub_bucket`.
pub open spec fn put_post(
    before: SubBucketer,
    after: SubBucketer,
    index: int,
    m: Seq<(Seq<char>, Seq<char>)>,
    r: Result<(), StoreError>,
) -> bool {
    &&& after.wf()
    &&& !encodable(m) ==> r == Err::<(), StoreError>(StoreError::Validation)
    &&& encodable(m) ==> match put_place(before.dir(), index, encode_spec(m).len()) {
        Some(o) => r is Ok && encode_spec(m).len() <= MAX_DATA_SIZE - SUB_BUCKET_HEADER_SIZE && after.dir() == before.dir().update(
            index,
            Entry { offset: o as u16, size: encode_spec(m).len() as u16 },
        ) && after.payload(index) == encode_spec(m) && forall|k: int|
            0 <= k < BLOCK_SIZE && !(4 * index <= k < 4 * index + 4) && !(o <= k < o + encode_spec(m).len())
                ==> #[trigger] after@[k] == before@[k],
        None => r == Err::<(), StoreError>(StoreError::StorageFull),
    }
    &&& r is Err ==> after@ == before@
    &&& forall|j: int|
        0 <= j < MAX_SUB_BUCKETS && j != index && is_live(before.dir()[j]) ==> #[trigger] after.payload(j)
            == before.payload(j)
    &&& forall|j: int| 0 <= j < MAX_SUB_BUCKETS && j != index ==> #[trigger] after.dir()[j] == before.dir()[j]
}

/// What reading slot `index` returns: see `SubBucketer::get_sub_bucket`.
pub open spec fn get_post(blk: SubBucketer, index: int, r: Result<Option<Record>, StoreError>) -> bool {
    match slot_spec(blk, index) {
        None => r == Err::<Option<Record>, StoreError>(StoreError::Decode),
        Some(None) => r matches Ok(None),
        Some(Some(s)) => r matches Ok(Some(m)) && m@ == s && m.wf(),
    }
}

/// A fixed-size block: a directory of slot entries followed by the payload
/// region and a footer.
pub struct SubBucketer {
    data: Vec<u8>,
}

impl View for SubBucketer {
    type V = Seq<u8>;

    closed spec fn view(&self) -> Seq<u8> {
        self.data@
    }
}

impl SubBucketer {
    /// The block holds exactly `BLOCK_SIZE` bytes.
    pub open spec fn inv(&self) -> bool {
        self@.len() == BLOCK_SIZE
    }

    /// The directory, slot by slot.
    pub open spec fn dir(&self) -> Seq<Entry> {
        Seq::new(MAX_SUB_BUCKETS as nat, |i: int| entry_of(self@, i))
    }

    /// The directory obeys its layout rules.
    pub open spec fn wf(&self) -> bool {
        self.inv() && dir_wf(self.dir())
    }

    /// The bytes that slot `i` points at.
    pub open spec fn payload(&self, i: int) -> Seq<u8> {
        let e = self.dir()[i];
        self@.subrange(e.offset as int, e.offset + e.size)
    }

    /// An empty block: all bytes zero, so every slot is empty.
    pub fn new() -> (r: SubBucketer)
        ensures
            r.inv(),
            r.wf(),
            r@ == Seq::new(BLOCK_SIZE as nat, |i: int| 0u8),
            forall|i: int| 0 <= i < MAX_SUB_BUCKETS ==> !is_live(#[trigger] r.dir()[i]),
    {
        let mut data: Vec<u8> = Vec::new();
        let mut i: usize = 0;
        while i < BLOCK_SIZE
            invariant
                i <= BLOCK_SIZE,
                data@ == Seq::new(i as nat, |k: int| 0u8),
            decreases BLOCK_SIZE - i,
        {
            data.push(0);
            i += 1;
        }
        let r = SubBucketer { data };
        assert(r@ =~= Seq::new(BLOCK_SIZE as nat, |k: int| 0u8));
        assert forall|i: int| 0 <= i < MAX_SUB_BUCKETS implies !is_live(#[trigger] r.dir()[i]) by {
            assert(r@[4 * i + 2] == 0 && r@[4 * i + 3] == 0);
        }
        r
    }

    /// Number of bytes in the block.
    pub fn len(&self) -> (r: usize)
        requires
            self.inv(),
        ensures
            r == self@.len(),
            r == BLOCK_SIZE,
    {
        self.data.len()
    }

    /// A copy of the bytes in `[from, to)`.
    pub fn read_bytes(&self, from: usize, to: usize) -> (r: Vec<u8>)
        requires
            self.inv(),
            from <= to <= BLOCK_SIZE,
        ensures
            r@ == self@.subrange(from as int, to as int),
    {
        let mut out: Vec<u8> = Vec::new();
        let mut i: usize = from;
        while i < to
            invariant
                self.inv(),
                from <= i <= to <= BLOCK_SIZE,
                out@ == self@.subrange(from as int, i as int),
            decreases to - i,
        {
            out.push(self.data[i]);
            i += 1;
            assert(out@ =~= self@.subrange(from as int, i as int));
        }
        out
    }

    /// Overwrites the bytes from `at` on with `src`; no other byte changes.
    /// Writing into the directory this way bypasses its layout rules.
    pub fn write_bytes(&mut self, at: usize, src: &[u8])
        requires
            old(self).inv(),
            at + src@.len() <= BLOCK_SIZE,
        ensures
            final(self).inv(),
            final(self)@ == old(self)@.subrange(0, at as int) + src@ + old(self)@.subrange(
                at + src@.len(),
                BLOCK_SIZE as int,
            ),
    {
        let ghost start = self@;
        let mut i: usize = 0;
        while i < src.len()
            invariant
                self.inv(),
                at + src@.len() <= BLOCK_SIZE,
                i <= src@.len(),
                start.len() == BLOCK_SIZE,
                self@ == start.subrange(0, at as int) + src@.subrange(0, i as int) + start.subrange(
                    at + i,
                    BLOCK_SIZE as int,
                ),
            decreases src@.len() - i,
        {
            self.data.set(at + i, src[i]);
            i += 1;
            assert(self@ =~= start.subrange(0, at as int) + src@.subrange(0, i as int) + start.subrange(
                at + i,
                BLOCK_SIZE as int,
            ));
        }
        assert(src@.subrange(0, i as int) =~= src@);
    }

    /// Reads the directory entry of slot `index`.
    pub fn get_entry(&self, index: u8) -> (r: Entry)
        requires
            self.inv(),
        ensures
            r == self.dir()[index as int],
    {
        let i = (index as usize) * ENTRY_SIZE;
        Entry {
            offset: read_be_u16(self.data.as_slice(), i),
            size: read_be_u16(self.data.as_slice(), i + 2),
        }
    }

    /// Writes the directory entry of slot `index`; no byte outside that
    /// entry changes.
    pub fn put_entry(&mut self, index: u8, e: Entry)
        requires
            old(self).inv(),
        ensures
            final(self).inv(),
            final(self).dir() == old(self).dir().update(index as int, e),
            forall|k: int|
                0 <= k < BLOCK_SIZE && !(4 * index <= k < 4 * index + 4) ==> #[trigger] final(self)@[k]
                    == old(self)@[k],
    {
        let i = (index as usize) * ENTRY_SIZE;
        write_be_u16(&mut self.data, i, e.offset);
        write_be_u16(&mut self.data, i + 2, e.size);
        assert(self.dir() =~= old(self).dir().update(index as int, e)) by {
            assert forall|j: int| 0 <= j < MAX_SUB_BUCKETS implies #[trigger] self.dir()[j]
                == old(self).dir().update(index as int, e)[j] by {
                if j != index {
                    assert(self@[4 * j] == old(self)@[4 * j]);
                    assert(self@[4 * j + 1] == old(self)@[4 * j + 1]);
                    assert(self@[4 * j + 2] == old(self)@[4 * j + 2]);
                    assert(self@[4 * j + 3] == old(self)@[4 * j + 3]);
                }
            }
        }
    }

    /// Finds an offset for `want` bytes, treating slot `skip` (when it names a
    /// slot) as empty. See `find_space`.
    fn find_space_excluding(&self, want: u16, skip: usize) -> (r: Result<u16, StoreError>)
        requires
            self.inv(),
            want >= 1,
        ensures
            r matches Ok(o) ==> find_space_spec(without(self.dir(), skip as int), want as nat) == Some(o as int),
            r is Err ==> r == Err::<u16, StoreError>(StoreError::StorageFull) && find_space_spec(
                without(self.dir(), skip as int),
                want as nat,
            ) is None,
    {
        let ghost d = without(self.dir(), skip as int);
        let p = size_class(want as u32);
        proof {
            lemma_next_pow2(want as nat);
        }
        // Collect the live slots, ordered by offset.
        let mut order: Vec<u8> = Vec::new();
        let mut i: usize = 0;
        while i < MAX_SUB_BUCKETS
            invariant
                self.inv(),
                d == without(self.dir(), skip as int),
                d.len() == MAX_SUB_BUCKETS,
                i <= MAX_SUB_BUCKETS,
                order@ == live_by_offset(d, i as int),
                order@.len() <= i,
            decreases MAX_SUB_BUCKETS - i,
        {
            let e = self.get_entry(i as u8);
            if i != skip && e.size != 0 {
                assert(d[i as int] == e);
                let mut j: usize = 0;
                while j < order.len()
                    invariant
                        self.inv(),
                        j <= order@.len(),
                        d == without(self.dir(), skip as int),
                        d.len() == MAX_SUB_BUCKETS,
                        i < MAX_SUB_BUCKETS,
                        forall|k: int| 0 <= k < j ==> !(e.offset < d[#[trigger] order@[k] as int].offset),
                        order@.len() <= i,
                        order@ == live_by_offset(d, i as int),
                    ensures
                        j <= order@.len(),
                        forall|k: int| 0 <= k < j ==> !(e.offset < d[#[trigger] order@[k] as int].offset),
                        j < order@.len() ==> e.offset < d[order@[j as int] as int].offset,
                    decreases order@.len() - j,
                {
                    proof {
                        lemma_live_by_offset(d, i as int);
                        assert(order@.contains(order@[j as int]));
                    }
                    let o = self.get_entry(order[j]);
                    assert(d[order@[j as int] as int] == o);
                    if e.offset < o.offset {
                        break;
                    }
                    j += 1;
                }
                proof {
                    lemma_insert_at(d, i as u8, order@, j as int);
                }
                order.insert(j, i as u8);
            } else {
                assert(!is_live(d[i as int]));
            }
            i += 1;
        }
        // Scan for the first gap that holds the rounded size.
        let ghost s = order@;
        let mut next: u32 = SUB_BUCKET_HEADER_SIZE;
        let mut k: usize = 0;
        proof {
            assert(s.subrange(0, s.len() as int) =~= s);
        }
        while k < order.len()
            invariant
                self.inv(),
                d == without(self.dir(), skip as int),
                s == order@,
                d.len() == MAX_SUB_BUCKETS,
                s == live_by_offset(d, MAX_SUB_BUCKETS as int),
                k <= s.len(),
                next <= 131072,
                p <= 65536,
                first_fit(d, s, SUB_BUCKET_HEADER_SIZE as int, p as int) == first_fit(
                    d,
                    s.subrange(k as int, s.len() as int),
                    next as int,
                    p as int,
                ),
            ensures
                first_fit(d, s, SUB_BUCKET_HEADER_SIZE as int, p as int) == next,
                next <= 131072,
            decreases s.len() - k,
        {
            let e = self.get_entry(order[k]);
            let ghost t = s.subrange(k as int, s.len() as int);
            assert(t[0] == s[k as int]);
            proof {
                lemma_live_by_offset(d, MAX_SUB_BUCKETS as int);
                assert(s.contains(s[k as int]));
            }
            assert(d[s[k as int] as int] == e);
            if next + p <= e.offset as u32 {
                assert(first_fit(d, t, next as int, p as int) == next);
                break;
            }
            proof {
                lemma_live_by_offset(d, MAX_SUB_BUCKETS as int);
                assert(s.contains(s[k as int]));
                assert(t.drop_first() =~= s.subrange(k + 1, s.len() as int));
            }
            next = e.offset as u32 + size_class(e.size as u32);
            k += 1;
        }
        if next + p > MAX_DATA_SIZE {
            return Err(StoreError::StorageFull);
        }
        Ok(next as u16)
    }

    /// Finds an offset for `want` bytes, rounded up to their size class: the
    /// live slots are scanned in order of offset from the start of the payload
    /// region, and the first gap before a slot that holds the rounded size is
    /// taken, else the space after the last slot if it ends by
    /// `MAX_DATA_SIZE`. A size of zero is refused. On a well-formed directory
    /// the range found overlaps no live slot's reservation.
    pub fn find_space(&self, want: u16) -> (r: Result<u16, StoreError>)
        requires
            self.inv(),
        ensures
            want == 0 ==> r == Err::<u16, StoreError>(StoreError::Validation),
            want != 0 ==> match find_space_spec(self.dir(), want as nat) {
                Some(o) => r == Ok::<u16, StoreError>(o as u16),
                None => r == Err::<u16, StoreError>(StoreError::StorageFull),
            },
            want != 0 && self.wf() ==> (r matches Ok(o) ==> placement_free(
                self.dir(),
                o as int,
                next_pow2(want as nat) as int,
            )),
            want != 0 && self.wf() ==> (r matches Ok(o) ==> forall|o2: int|
                o2 < o ==> !placement_free(self.dir(), o2, next_pow2(want as nat) as int)),
            want != 0 && self.wf() ==> (r is Err <==> forall|o2: int|
                !placement_free(self.dir(), o2, next_pow2(want as nat) as int)),
    {
        if want == 0 {
            return Err(StoreError::Validation);
        }
        proof {
            if self.wf() {
                lemma_find_space_free(self.dir(), want as nat);
                lemma_find_space_least(self.dir(), want as nat);
            }
        }
        self.find_space_excluding(want, MAX_SUB_BUCKETS)
    }

    /// Total size of the live payloads.
    pub fn get_size(&self) -> (r: u32)
        requires
            self.inv(),
        ensures
            r == live_total(self.dir(), MAX_SUB_BUCKETS as int),
    {
        let mut total: u32 = 0;
        let mut i: usize = 0;
        while i < MAX_SUB_BUCKETS
            invariant
                self.inv(),
                i <= MAX_SUB_BUCKETS,
                total == live_total(self.dir(), i as int),
                total <= i * 0xffff,
            decreases MAX_SUB_BUCKETS - i,
        {
            let e = self.get_entry(i as u8);
            total = total + e.size as u32;
            i += 1;
        }
        total
    }

    /// Reads the record in slot `index`: `None` for an empty slot. A payload
    /// that runs past the block or does not decode is reported as a decode
    /// error.
    pub fn get_sub_bucket(&self, index: u8) -> (r: Result<Option<Record>, StoreError>)
        requires
            self.inv(),
        ensures
            get_post(*self, index as int, r),
    {
        let entry = self.get_entry(index);
        if entry.size == 0 {
            return Ok(None);
        }
        let offset = entry.offset as usize;
        let size = entry.size as usize;
        if offset + size > BLOCK_SIZE {
            return Err(StoreError::Decode);
        }
        let bytes = self.data.as_slice();
        let payload = slice_range(bytes, offset, offset + size);
        match decode(payload) {
            Ok(m) => Ok(Some(m)),
            Err(e) => Err(e),
        }
    }

    /// Clears slot `index`. The payload bytes stay where they were; only the
    /// directory entry changes.
    pub fn del_sub_bucket(&mut self, index: u8)
        requires
            old(self).inv(),
        ensures
            final(self).inv(),
            final(self).dir() == old(self).dir().update(index as int, Entry { offset: 0, size: 0 }),
            old(self).wf() ==> final(self).wf(),
            forall|j: int|
                0 <= j < MAX_SUB_BUCKETS && j != index && is_live(old(self).dir()[j]) && old(self).wf()
                    ==> #[trigger] final(self).payload(j) == old(self).payload(j),
            forall|k: int|
                0 <= k < BLOCK_SIZE && !(4 * index <= k < 4 * index + 4) ==> #[trigger] final(self)@[k] == old(
                    self,
                )@[k],
    {
        let ghost before = *self;
        self.put_entry(index, Entry { offset: 0, size: 0 });
        proof {
            if before.wf() {
                lemma_without_wf(before.dir(), index as int);
                assert(self.dir() == without(before.dir(), index as int));
                assert forall|j: int|
                    0 <= j < MAX_SUB_BUCKETS && j != index && is_live(before.dir()[j]) implies #[trigger] self.payload(j)
                    == before.payload(j) by {
                    lemma_payload_kept(before, *self, j);
                }
            }
        }
    }

    /// Writes `buf` as the payload of slot `index` at `offset`, a range free
    /// of every other slot's reservation, and points the slot's entry at it.
    fn write_slot(&mut self, index: u8, buf: &Vec<u8>, offset: u16)
        requires
            old(self).wf(),
            1 <= buf@.len() <= MAX_DATA_SIZE - SUB_BUCKET_HEADER_SIZE,
            placement_free(without(old(self).dir(), index as int), offset as int, next_pow2(buf@.len()) as int),
        ensures
            write_post(*old(self), *final(self), index as int, offset as int, buf@),
    {
        let ghost before = *self;
        let ghost d = self.dir();
        let ghost o = offset as int;
        let size = buf.len();
        proof {
            lemma_next_pow2(size as nat);
        }
        self.put_entry(index, Entry { offset, size: size as u16 });
        let ghost mid = *self;
        let start = offset as usize;
        let mut k: usize = 0;
        while k < size
            invariant
                mid.inv(),
                self.inv(),
                k <= size,
                size == buf@.len(),
                start == o,
                SUB_BUCKET_HEADER_SIZE <= start,
                start + size <= MAX_DATA_SIZE,
                forall|m: int| 0 <= m < k ==> #[trigger] self@[start + m] == buf@[m],
                forall|m: int|
                    0 <= m < BLOCK_SIZE && !(start <= m < start + k) ==> #[trigger] self@[m] == mid@[m],
            decreases size - k,
        {
            self.data.set(start + k, buf[k]);
            k += 1;
        }
        proof {
            assert(self.dir() =~= mid.dir()) by {
                assert forall|j: int| 0 <= j < MAX_SUB_BUCKETS implies #[trigger] self.dir()[j] == mid.dir()[j] by {
                    assert(self@[4 * j] == mid@[4 * j]);
                    assert(self@[4 * j + 1] == mid@[4 * j + 1]);
                    assert(self@[4 * j + 2] == mid@[4 * j + 2]);
                    assert(self@[4 * j + 3] == mid@[4 * j + 3]);
                }
            }
            assert(self.dir()[index as int] == Entry { offset: o as u16, size: size as u16 });
            assert(self.payload(index as int) =~= buf@) by {
                assert forall|m: int| 0 <= m < size implies #[trigger] self.payload(index as int)[m] == buf@[m] by {
                    assert(self@[start + m] == buf@[m]);
                }
            }
            assert forall|j: int|
                0 <= j < MAX_SUB_BUCKETS && j != index && is_live(before.dir()[j]) implies #[trigger] self.payload(j)
                == before.payload(j) by {
                lemma_next_pow2(d[j].size as nat);
                lemma_next_pow2(size as nat);
                assert(self.dir()[j] == d[j]);
                assert(without(d, index as int)[j] == d[j]);
                assert(is_live(without(d, index as int)[j]));
                assert(self.payload(j) =~= before.payload(j)) by {
                    assert forall|m: int| 0 <= m < d[j].size implies #[trigger] self.payload(j)[m] == before.payload(j)[m] by {
                        let at = d[j].offset + m;
                        assert(self@[at] == mid@[at]);
                        assert(mid@[at] == before@[at]);
                    }
                }
            }
            lemma_put_wf(d, index as int, o, size as nat);
            assert forall|k: int|
                0 <= k < BLOCK_SIZE && !(4 * index <= k < 4 * index + 4) && !(o <= k < o + size) implies #[trigger] self@[k]
                == before@[k] by {
                assert(self@[k] == mid@[k]);
            }
        }
    }

    /// Stores `map` in slot `index` at `offset`, a range free of every other
    /// slot's reservation.
    pub(crate) fn put_sub_bucket_at(&mut self, index: u8, map: &Record, offset: u16)
        requires
            old(self).wf(),
            encodable(map@),
            encode_spec(map@).len() <= MAX_DATA_SIZE - SUB_BUCKET_HEADER_SIZE,
            placement_free(
                without(old(self).dir(), index as int),
                offset as int,
                next_pow2(encode_spec(map@).len()) as int,
            ),
        ensures
            write_post(*old(self), *final(self), index as int, offset as int, encode_spec(map@)),
    {
        match encode(map) {
            Ok(buf) => {
                self.write_slot(index, &buf, offset);
            },
            Err(_) => {
                assert(false);
            },
        }
    }

    /// Stores `map` in slot `index`. Its encoding overwrites the slot's
    /// payload in place when it fits the slot's current size class; otherwise
    /// `find_space` places it, with the slot's own reservation set aside.
    /// Fails with a validation error when the record cannot be encoded, and
    /// with a storage-full error when no range is free; the block is then
    /// unchanged. Other slots keep their entries and payloads.
    pub fn put_sub_bucket(&mut self, index: u8, map: &Record) -> (r: Result<(), StoreError>)
        requires
            old(self).wf(),
        ensures
            put_post(*old(self), *final(self), index as int, map@, r),
    {
        let buf = match encode(map) {
            Ok(b) => b,
            Err(e) => {
                return Err(e);
            },
        };
        let ghost before = *self;
        let ghost d = self.dir();
        let size = buf.len();
        proof {
            lemma_put_bounds(d, index as int, size as nat);
        }
        if size > (MAX_DATA_SIZE - SUB_BUCKET_HEADER_SIZE) as usize {
            return Err(StoreError::StorageFull);
        }
        let mut entry = self.get_entry(index);
        if !(entry.size != 0 && size as u32 <= size_class(entry.size as u32)) {
            match self.find_space_excluding(size as u16, index as usize) {
                Ok(off) => {
                    entry.offset = off;
                },
                Err(e) => {
                    return Err(e);
                },
            }
        }
        proof {
            lemma_put_place_free(d, index as int, size as nat);
        }
        self.write_slot(index, &buf, entry.offset);
        Ok(())
    }
}

/// Stores `map` in slot `index` of `block`, as `SubBucketer::put_sub_bucket`
/// does; an index past the directory is refused with a validation error.
pub fn put_sub_bucket(block: &mut SubBucketer, index: u32, map: &Record) -> (r: Result<(), StoreError>)
    requires
        old(block).wf(),
    ensures
        index >= MAX_SUB_BUCKETS ==> r == Err::<(), StoreError>(StoreError::Validation) && *final(block) == *old(block),
        index < MAX_SUB_BUCKETS ==> put_post(*old(block), *final(block), index as int, map@, r),
{
    if index >= MAX_SUB_BUCKETS as u32 {
        return Err(StoreError::Validation);
    }
    block.put_sub_bucket(index as u8, map)
}

/// Clears slot `index` of `block`, as `SubBucketer::del_sub_bucket` does; an
/// index past the directory is refused with a validation error.
pub fn del_sub_bucket(block: &mut SubBucketer, index: u32) -> (r: Result<(), StoreError>)
    requires
        old(block).inv(),
    ensures
        final(block).inv(),
        index >= MAX_SUB_BUCKETS ==> r == Err::<(), StoreError>(StoreError::Validation) && *final(block) == *old(block),
        index < MAX_SUB_BUCKETS ==> r is Ok && final(block).dir() == old(block).dir().update(
            index as int,
            Entry { offset: 0, size: 0 },
        ),
        forall|k: int|
            0 <= k < BLOCK_SIZE && !(4 * index <= k < 4 * index + 4) ==> #[trigger] final(block)@[k] == old(block)@[k],
        old(block).wf() ==> final(block).wf(),
{
    if index >= MAX_SUB_BUCKETS as u32 {
        return Err(StoreError::Validation);
    }
    block.del_sub_bucket(index as u8);
    Ok(())
}

/// Reads slot `index` of `block`, as `SubBucketer::get_sub_bucket` does; an
/// index past the directory is refused with a validation error.
pub fn get_sub_bucket(block: &SubBucketer, index: u32) -> (r: Result<Option<Record>, StoreError>)
    requires
        block.inv(),
    ensures
        index >= MAX_SUB_BUCKETS ==> r == Err::<Option<Record>, StoreError>(StoreError::Validation),
        index < MAX_SUB_BUCKETS ==> get_post(*block, index as int, r),
{
    if index >= MAX_SUB_BUCKETS as u32 {
        return Err(StoreError::Validation);
    }
    block.get_sub_bucket(index as u8)
}

/// Walks a block's directory entries in slot order.
pub struct BlockIterator<'a> {
    i: u32,
    block: &'a SubBucketer,
}

impl<'a> BlockIterator<'a> {
    /// Slots already handed out.
    pub closed spec fn pos(&self) -> int {
        self.i as int
    }

    /// The block walked.
    pub closed spec fn source(&self) -> SubBucketer {
        *self.block
    }

    /// The position is within the directory and the block is whole.
    pub closed spec fn wf(&self) -> bool {
        self.i <= MAX_SUB_BUCKETS && self.block.inv()
    }

    /// Starts at slot 0 of `b`.
    pub fn new(b: &'a SubBucketer) -> (r: BlockIterator<'a>)
        requires
            b.inv(),
        ensures
            r.wf(),
            r.pos() == 0,
            r.source() == *b,
    {
        BlockIterator { i: 0, block: b }
    }

    /// The next slot's entry, or `None` after the last slot.
    pub fn next(&mut self) -> (r: Option<Entry>)
        requires
            old(self).wf(),
        ensures
            final(self).wf(),
            final(self).source() == old(self).source(),
            old(self).pos() < MAX_SUB_BUCKETS ==> r == Some(old(self).source().dir()[old(self).pos()])
                && final(self).pos() == old(self).pos() + 1,
            old(self).pos() >= MAX_SUB_BUCKETS ==> r is None && final(self).pos() == old(self).pos(),
    {
        if self.i as usize == MAX_SUB_BUCKETS {
            return None;
        }
        let entry = self.block.get_entry(self.i as u8);
        self.i = self.i + 1;
        Some(entry)
    }
}

} // verus!
