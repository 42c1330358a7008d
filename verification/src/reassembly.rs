//! Cutting a payload into fragments, and putting the fragments together again.

use vstd::prelude::*;

use crate::wire::{copy_range, push_all};

verus! {

/// A piece of a payload and the offset at which it stands.
pub type Fragment = (u64, Seq<u8>);

/// The number of bytes in all fragments of `s` together.
pub open spec fn total_bytes(s: Seq<Fragment>) -> nat
    decreases s.len(),
{
    if s.len() == 0 {
        0
    } else {
        total_bytes(s.drop_last()) + s.last().1.len()
    }
}

/// The bytes of all fragments of `s`, one after the other.
pub open spec fn joined(s: Seq<Fragment>) -> Seq<u8>
    decreases s.len(),
{
    if s.len() == 0 {
        Seq::empty()
    } else {
        joined(s.drop_last()) + s.last().1
    }
}

/// Offsets strictly increase along `s`.
pub open spec fn in_order(s: Seq<Fragment>) -> bool {
    forall|i: int, j: int| 0 <= i < j < s.len() ==> (#[trigger] s[i]).0 < (#[trigger] s[j]).0
}

/// `s` with `chunk` standing at `offset`; what stood there before is replaced.
#[verifier::opaque]
pub open spec fn with_fragment(s: Seq<Fragment>, offset: u64, chunk: Seq<u8>) -> Seq<Fragment> {
    s.filter(|f: Fragment| f.0 < offset) + seq![(offset, chunk)] + s.filter(
        |f: Fragment| f.0 > offset,
    )
}

/// A sequence that starts with elements that satisfy `p` and ends with elements that do not is
/// filtered by taking the start.
proof fn lemma_filter_prefix(s: Seq<Fragment>, p: spec_fn(Fragment) -> bool, n: int)
    requires
        0 <= n <= s.len(),
        forall|i: int| 0 <= i < n ==> p(#[trigger] s[i]),
        forall|i: int| n <= i < s.len() ==> !p(#[trigger] s[i]),
    ensures
        s.filter(p) == s.take(n),
    decreases s.len(),
{
    reveal(Seq::filter);
    if s.len() > 0 {
        let t = s.drop_last();
        if n == s.len() {
            lemma_filter_prefix(t, p, n - 1);
            assert(t.take(n - 1) =~= t);
            assert(s.take(n) =~= t.push(s.last()));
        } else {
            lemma_filter_prefix(t, p, n);
            assert(t.take(n) =~= s.take(n));
        }
    } else {
        assert(s.take(n) =~= s);
    }
}

/// A sequence that starts with elements that do not satisfy `p` and ends with elements that do
/// is filtered by skipping the start.
proof fn lemma_filter_suffix(s: Seq<Fragment>, p: spec_fn(Fragment) -> bool, n: int)
    requires
        0 <= n <= s.len(),
        forall|i: int| 0 <= i < n ==> !p(#[trigger] s[i]),
        forall|i: int| n <= i < s.len() ==> p(#[trigger] s[i]),
    ensures
        s.filter(p) == s.skip(n),
    decreases s.len(),
{
    reveal(Seq::filter);
    if s.len() > 0 {
        let t = s.drop_last();
        if n == s.len() {
            lemma_filter_suffix(t, p, n - 1);
            assert(t.skip(n - 1) =~= s.skip(n));
        } else {
            lemma_filter_suffix(t, p, n);
            assert(s.skip(n) =~= t.skip(n).push(s.last()));
        }
    } else {
        assert(s.skip(n) =~= s);
    }
}

/// Inserting into an ordered sequence is a matter of positions.
proof fn lemma_with_fragment(s: Seq<Fragment>, offset: u64, chunk: Seq<u8>, n: int)
    requires
        in_order(s),
        0 <= n <= s.len(),
        forall|i: int| 0 <= i < n ==> (#[trigger] s[i]).0 < offset,
        forall|i: int| n <= i < s.len() ==> (#[trigger] s[i]).0 >= offset,
    ensures
        n < s.len() && s[n].0 == offset ==> with_fragment(s, offset, chunk) == s.update(
            n,
            (offset, chunk),
        ),
        !(n < s.len() && s[n].0 == offset) ==> with_fragment(s, offset, chunk) == s.insert(
            n,
            (offset, chunk),
        ),
        in_order(with_fragment(s, offset, chunk)),
{
    reveal(with_fragment);
    let w = with_fragment(s, offset, chunk);
    lemma_filter_prefix(s, |f: Fragment| f.0 < offset, n);
    if n < s.len() && s[n].0 == offset {
        assert forall|i: int| n + 1 <= i < s.len() implies (#[trigger] s[i]).0 > offset by {
            assert(s[n].0 < s[i].0);
        }
        lemma_filter_suffix(s, |f: Fragment| f.0 > offset, n + 1);
        assert(w =~= s.update(n, (offset, chunk)));
    } else {
        assert forall|i: int| n <= i < s.len() implies (#[trigger] s[i]).0 > offset by {
            if i > n {
                assert(s[n].0 < s[i].0);
            }
        }
        lemma_filter_suffix(s, |f: Fragment| f.0 > offset, n);
        assert(w =~= s.insert(n, (offset, chunk)));
    }
    assert forall|i: int, j: int| 0 <= i < j < w.len() implies (#[trigger] w[i]).0 < (
    #[trigger] w[j]).0 by {
        if n < s.len() && s[n].0 == offset {
            assert(s[i].0 < s[j].0);
        } else {
            let i2 = if i < n { i } else { i - 1 };
            let j2 = if j < n { j } else { j - 1 };
            if i != n && j != n {
                assert(s[i2].0 < s[j2].0);
            }
        }
    }
}

/// `s` is `payload` cut into consecutive pieces, none of them empty.
pub open spec fn is_cut(s: Seq<Fragment>, payload: Seq<u8>) -> bool {
    &&& in_order(s)
    &&& joined(s) == payload
    &&& forall|i: int|
        0 <= i < s.len() ==> {
            &&& (#[trigger] s[i]).1.len() > 0
            &&& s[i].0 == joined(s.take(i)).len()
        }
}

/// `payload` from `offset` on, cut into pieces of `room` bytes; the last may be shorter.
pub open spec fn cut_from(payload: Seq<u8>, offset: int, room: int) -> Seq<Fragment>
    decreases payload.len() - offset,
{
    if room <= 0 || offset < 0 || offset >= payload.len() {
        Seq::empty()
    } else {
        let end = if offset + room < payload.len() {
            offset + room
        } else {
            payload.len() as int
        };
        seq![(offset as u64, payload.subrange(offset, end))] + cut_from(payload, end, room)
    }
}

/// `payload` cut into pieces of `room` bytes; the last may be shorter.
pub open spec fn cut(payload: Seq<u8>, room: int) -> Seq<Fragment> {
    cut_from(payload, 0, room)
}

/// The view of a list of fragments.
pub open spec fn fragment_views(s: Seq<(u64, Vec<u8>)>) -> Seq<Fragment> {
    s.map_values(|f: (u64, Vec<u8>)| (f.0, f.1@))
}

/// Cuts `payload` into pieces of `room` bytes; the last may be shorter.
pub fn cut_payload(payload: &[u8], room: usize) -> (out: Vec<(u64, Vec<u8>)>)
    requires
        room > 0,
    ensures
        fragment_views(out@) == cut(payload@, room as int),
{
    let mut out: Vec<(u64, Vec<u8>)> = Vec::new();
    let mut offset: usize = 0;
    assert(fragment_views(out@) =~= Seq::<Fragment>::empty());
    assert(fragment_views(out@) + cut_from(payload@, 0, room as int) =~= cut(
        payload@,
        room as int,
    ));
    while offset < payload.len()
        invariant
            room > 0,
            offset <= payload.len(),
            fragment_views(out@) + cut_from(payload@, offset as int, room as int) == cut(
                payload@,
                room as int,
            ),
        decreases payload.len() - offset,
    {
        let end: usize = if payload.len() - offset > room {
            offset + room
        } else {
            payload.len()
        };
        let piece = copy_range(payload, offset, end);
        let ghost before = fragment_views(out@);
        let ghost head: Fragment = (offset as u64, piece@);
        out.push((offset as u64, piece));
        proof {
            assert(fragment_views(out@) =~= before.push(head));
            let rest = cut_from(payload@, end as int, room as int);
            assert(cut_from(payload@, offset as int, room as int) == seq![head] + rest);
            assert(before.push(head) + rest =~= before + (seq![head] + rest));
        }
        offset = end;
    }
    proof {
        assert(cut_from(payload@, offset as int, room as int) =~= Seq::<Fragment>::empty());
        assert(fragment_views(out@) + Seq::<Fragment>::empty() =~= fragment_views(out@));
    }
    out
}

/// Joining is compatible with appending.
proof fn lemma_joined_add(a: Seq<Fragment>, b: Seq<Fragment>)
    ensures
        joined(a + b) == joined(a) + joined(b),
    decreases b.len(),
{
    if b.len() == 0 {
        assert(a + b =~= a);
        assert(joined(a) + joined(b) =~= joined(a));
    } else {
        assert((a + b).drop_last() =~= a + b.drop_last());
        lemma_joined_add(a, b.drop_last());
        assert(joined(a + b) =~= joined(a) + joined(b));
    }
}

/// The number of bytes is the length of what joining gives.
proof fn lemma_joined_len(s: Seq<Fragment>)
    ensures
        joined(s).len() == total_bytes(s),
    decreases s.len(),
{
    if s.len() > 0 {
        lemma_joined_len(s.drop_last());
    }
}

/// What `cut_from` gives is `payload` from `offset` on, in consecutive non-empty pieces.
proof fn lemma_cut_from(payload: Seq<u8>, offset: int, room: int)
    requires
        room > 0,
        0 <= offset <= payload.len(),
        payload.len() <= u64::MAX,
    ensures
        joined(cut_from(payload, offset, room)) == payload.subrange(
            offset,
            payload.len() as int,
        ),
        forall|i: int|
            0 <= i < cut_from(payload, offset, room).len() ==> {
                &&& (#[trigger] cut_from(payload, offset, room)[i]).1.len() > 0
                &&& cut_from(payload, offset, room)[i].0 == offset + joined(
                    cut_from(payload, offset, room).take(i),
                ).len()
            },
    decreases payload.len() - offset,
{
    let s = cut_from(payload, offset, room);
    if offset < payload.len() {
        let end = if offset + room < payload.len() {
            offset + room
        } else {
            payload.len() as int
        };
        let rest = cut_from(payload, end, room);
        let head: Fragment = (offset as u64, payload.subrange(offset, end));
        lemma_cut_from(payload, end, room);
        assert(s == seq![head] + rest);
        lemma_joined_add(seq![head], rest);
        reveal_with_fuel(joined, 2);
        assert(seq![head].drop_last() =~= Seq::<Fragment>::empty());
        assert(joined(seq![head]) =~= head.1);
        assert(joined(s) =~= payload.subrange(offset, payload.len() as int));
        assert forall|i: int| 0 <= i < s.len() implies (#[trigger] s[i]).1.len() > 0 && s[i].0
            == offset + joined(s.take(i)).len() by {
            if i == 0 {
                assert(s.take(0) =~= Seq::<Fragment>::empty());
            } else {
                assert(s[i] == rest[i - 1]);
                assert(s.take(i) =~= seq![head] + rest.take(i - 1));
                lemma_joined_add(seq![head], rest.take(i - 1));
            }
        }
    } else {
        assert(payload.subrange(offset, payload.len() as int) =~= Seq::<u8>::empty());
    }
}

/// Where a later piece of a cut stands: at or past the end of every earlier one.
proof fn lemma_cut_offsets(s: Seq<Fragment>, i: int, j: int)
    requires
        forall|k: int|
            0 <= k < s.len() ==> {
                &&& (#[trigger] s[k]).1.len() > 0
                &&& s[k].0 == joined(s.take(k)).len()
            },
        0 <= i < j <= s.len(),
    ensures
        s[i].0 + s[i].1.len() <= joined(s.take(j)).len(),
    decreases j - i,
{
    if j == i + 1 {
        assert(s.take(j).drop_last() =~= s.take(i));
        assert(s.take(j).last() == s[i]);
    } else {
        lemma_cut_offsets(s, i, j - 1);
        assert(s.take(j).drop_last() =~= s.take(j - 1));
        assert(s.take(j).last() == s[j - 1]);
    }
}

/// Cutting a payload gives consecutive pieces of it that, joined, are the payload.
pub proof fn law_cut_is_cut(payload: Seq<u8>, room: int)
    requires
        room > 0,
        payload.len() <= u64::MAX,
    ensures
        is_cut(cut(payload, room), payload),
{
    let s = cut(payload, room);
    lemma_cut_from(payload, 0, room);
    assert(payload.subrange(0, payload.len() as int) =~= payload);
    assert forall|i: int, j: int| 0 <= i < j < s.len() implies (#[trigger] s[i]).0 < (
    #[trigger] s[j]).0 by {
        lemma_cut_offsets(s, i, j);
    }
}

/// `s` holds, in order, pieces of the cut `c` and nothing else.
pub open spec fn collects(s: Seq<Fragment>, c: Seq<Fragment>) -> bool {
    in_order(s) && forall|i: int| 0 <= i < s.len() ==> c.contains(#[trigger] s[i])
}

/// Every piece of `c` is in `s`.
pub open spec fn has_all(s: Seq<Fragment>, c: Seq<Fragment>) -> bool {
    forall|m: int| 0 <= m < c.len() ==> s.contains(#[trigger] c[m])
}

/// As long as a piece is missing, its bytes are missing.
proof fn lemma_missing_piece(s: Seq<Fragment>, c: Seq<Fragment>, payload: Seq<u8>, m: int)
    requires
        is_cut(c, payload),
        collects(s, c),
        0 <= m < c.len(),
        !s.contains(c[m]),
    ensures
        total_bytes(s) + c[m].1.len() <= payload.len(),
        s.len() > 0 ==> exists|k: int|
            {
                &&& 0 <= k < c.len()
                &&& #[trigger] c[k] == s.last()
                &&& total_bytes(s) + (if m < k {
                    c[m].1.len()
                } else {
                    0
                }) <= c[k].0 + c[k].1.len()
            },
    decreases s.len(),
{
    assert(c.take(c.len() as int) =~= c);
    lemma_cut_offsets(c, m, c.len() as int);
    if s.len() > 0 {
        let t = s.drop_last();
        let k = choose|k: int| 0 <= k < c.len() && c[k] == s.last();
        assert(c.contains(s[s.len() - 1]));
        assert(0 <= k < c.len() && c[k] == s.last());
        assert(k != m) by {
            if k == m {
                assert(s[s.len() - 1] == c[m]);
            }
        }
        assert(collects(t, c)) by {
            assert forall|i: int| 0 <= i < t.len() implies c.contains(#[trigger] t[i]) by {
                assert(t[i] == s[i]);
            }
            assert forall|i: int, j: int| 0 <= i < j < t.len() implies (#[trigger] t[i]).0 < (
            #[trigger] t[j]).0 by {
                assert(s[i].0 < s[j].0);
            }
        }
        assert(!t.contains(c[m])) by {
            if t.contains(c[m]) {
                let i = choose|i: int| 0 <= i < t.len() && t[i] == c[m];
                assert(s[i] == c[m]);
            }
        }
        lemma_missing_piece(t, c, payload, m);
        lemma_cut_offsets(c, k, c.len() as int);
        if m < k {
            lemma_cut_offsets(c, m, k);
        } else {
            lemma_cut_offsets(c, k, m);
        }
        if t.len() > 0 {
            let j = choose|j: int|
                {
                    &&& 0 <= j < c.len()
                    &&& #[trigger] c[j] == t.last()
                    &&& total_bytes(t) + (if m < j {
                        c[m].1.len()
                    } else {
                        0
                    }) <= c[j].0 + c[j].1.len()
                };
            assert(t.last() == s[t.len() - 1]);
            assert(s[t.len() - 1].0 < s[s.len() - 1].0);
            assert(j < k) by {
                if k < j {
                    assert(c[k].0 < c[j].0);
                }
            }
            assert(j != m) by {
                if j == m {
                    assert(s[t.len() - 1] == c[m]);
                }
            }
            lemma_cut_offsets(c, j, k);
            if j < m {
                lemma_cut_offsets(c, j, m);
            }
        } else {
            assert(total_bytes(t) == 0);
        }
        assert(total_bytes(s) == total_bytes(t) + s.last().1.len());
        assert(c[k] == s.last() && total_bytes(s) + (if m < k {
            c[m].1.len()
        } else {
            0
        }) <= c[k].0 + c[k].1.len());
    }
}

/// Two ordered sequences with the same elements are equal.
proof fn lemma_same_elements(s: Seq<Fragment>, c: Seq<Fragment>)
    requires
        in_order(s),
        in_order(c),
        forall|i: int| 0 <= i < s.len() ==> c.contains(#[trigger] s[i]),
        has_all(s, c),
    ensures
        s == c,
    decreases s.len(),
{
    if s.len() == 0 {
        if c.len() > 0 {
            assert(s.contains(c[0]));
        }
        assert(s =~= c);
    } else {
        assert(c.contains(s[s.len() - 1]));
        assert(c.len() > 0);
        assert(s.contains(c[c.len() - 1]));
        let k = choose|k: int| 0 <= k < c.len() && c[k] == s.last();
        let j = choose|j: int| 0 <= j < s.len() && s[j] == c.last();
        assert(k == c.len() - 1) by {
            if k < c.len() - 1 {
                assert(c[k].0 < c[c.len() - 1].0);
                if j < s.len() - 1 {
                    assert(s[j].0 < s[s.len() - 1].0);
                }
            }
        }
        let s2 = s.drop_last();
        let c2 = c.drop_last();
        assert forall|a: int, b: int| 0 <= a < b < s2.len() implies (#[trigger] s2[a]).0 < (
        #[trigger] s2[b]).0 by {
            assert(s[a].0 < s[b].0);
        }
        assert forall|a: int, b: int| 0 <= a < b < c2.len() implies (#[trigger] c2[a]).0 < (
        #[trigger] c2[b]).0 by {
            assert(c[a].0 < c[b].0);
        }
        assert forall|i: int| 0 <= i < s2.len() implies c2.contains(#[trigger] s2[i]) by {
            assert(c.contains(s[i]));
            let q = choose|q: int| 0 <= q < c.len() && c[q] == s[i];
            assert(s[i].0 < s[s.len() - 1].0);
            assert(c2[q] == s2[i]);
        }
        assert forall|m: int| 0 <= m < c2.len() implies s2.contains(#[trigger] c2[m]) by {
            assert(s.contains(c[m]));
            let q = choose|q: int| 0 <= q < s.len() && s[q] == c[m];
            assert(c[m].0 < c[c.len() - 1].0);
            assert(s2[q] == c2[m]);
        }
        lemma_same_elements(s2, c2);
        assert(s =~= s2.push(s.last()));
        assert(c =~= c2.push(c.last()));
    }
}

/// Collecting pieces of a cut payload, enough bytes have arrived exactly when every piece has,
/// and then what is put together is the payload.
pub proof fn law_complete_exactly_with_all_pieces(
    s: Seq<Fragment>,
    c: Seq<Fragment>,
    payload: Seq<u8>,
)
    requires
        is_cut(c, payload),
        collects(s, c),
    ensures
        total_bytes(s) >= payload.len() <==> has_all(s, c),
        has_all(s, c) ==> joined(s) == payload,
{
    if has_all(s, c) {
        lemma_same_elements(s, c);
        lemma_joined_len(s);
    } else {
        let m = choose|m: int| 0 <= m < c.len() && !s.contains(#[trigger] c[m]);
        lemma_missing_piece(s, c, payload, m);
    }
}

/// A piece that arrives joins the collection; nothing that was collected is lost, whether or
/// not the piece had arrived before.
pub proof fn law_piece_joins_collection(s: Seq<Fragment>, c: Seq<Fragment>, k: int)
    requires
        in_order(c),
        collects(s, c),
        0 <= k < c.len(),
    ensures
        collects(with_fragment(s, c[k].0, c[k].1), c),
        forall|f: Fragment| #[trigger]
            with_fragment(s, c[k].0, c[k].1).contains(f) <==> s.contains(f) || f == c[k],
{
    let f = c[k];
    let n = position_of(s, f.0);
    lemma_position_of(s, f.0);
    lemma_with_fragment(s, f.0, f.1, n);
    if n < s.len() && s[n].0 == f.0 {
        lemma_piece_in_place(s, c, k, n);
    } else {
        lemma_insert_contains(s, n, f);
        lemma_insert_collects(s, c, k, n);
    }
}

/// Putting a piece where it stands already changes nothing.
proof fn lemma_piece_in_place(s: Seq<Fragment>, c: Seq<Fragment>, k: int, n: int)
    requires
        in_order(c),
        collects(s, c),
        0 <= k < c.len(),
        0 <= n < s.len(),
        s[n].0 == c[k].0,
    ensures
        s[n] == c[k],
        s.update(n, (c[k].0, c[k].1)) == s,
        s.contains(c[k]),
{
    assert(c.contains(s[n]));
    let j = choose|j: int| 0 <= j < c.len() && c[j] == s[n];
    if j < k {
        assert(c[j].0 < c[k].0);
    }
    if k < j {
        assert(c[k].0 < c[j].0);
    }
    assert(s.update(n, (c[k].0, c[k].1)) =~= s);
}

/// A collection with one piece more, put in its place, holds pieces only.
proof fn lemma_insert_collects(s: Seq<Fragment>, c: Seq<Fragment>, k: int, n: int)
    requires
        collects(s, c),
        0 <= k < c.len(),
        0 <= n <= s.len(),
    ensures
        forall|i: int| 0 <= i < s.len() + 1 ==> c.contains(#[trigger] s.insert(n, c[k])[i]),
{
    let w = s.insert(n, c[k]);
    assert forall|i: int| 0 <= i < s.len() + 1 implies c.contains(#[trigger] w[i]) by {
        if i < n {
            assert(w[i] == s[i]);
        } else if i > n {
            assert(w[i] == s[i - 1]);
        } else {
            assert(w[i] == c[k]);
        }
    }
}

/// Inserting adds one element and keeps the others.
proof fn lemma_insert_contains(s: Seq<Fragment>, n: int, f: Fragment)
    requires
        0 <= n <= s.len(),
    ensures
        forall|g: Fragment| #[trigger] s.insert(n, f).contains(g) <==> s.contains(g) || g == f,
{
    let w = s.insert(n, f);
    assert forall|g: Fragment| #[trigger] w.contains(g) <==> s.contains(g) || g == f by {
        if w.contains(g) {
            let i = choose|i: int| 0 <= i < w.len() && w[i] == g;
            if i < n {
                assert(s[i] == g);
            } else if i > n {
                assert(s[i - 1] == g);
            }
        }
        if s.contains(g) {
            let i = choose|i: int| 0 <= i < s.len() && s[i] == g;
            if i < n {
                assert(w[i] == g);
            } else {
                assert(w[i + 1] == g);
            }
        }
        if g == f {
            assert(w[n] == g);
        }
    }
}

/// The number of fragments of `s` that stand before `offset`, for an ordered `s`.
spec fn position_of(s: Seq<Fragment>, offset: u64) -> int
    decreases s.len(),
{
    if s.len() == 0 || s.last().0 < offset {
        s.len() as int
    } else {
        position_of(s.drop_last(), offset)
    }
}

proof fn lemma_position_of(s: Seq<Fragment>, offset: u64)
    requires
        in_order(s),
    ensures
        0 <= position_of(s, offset) <= s.len(),
        forall|i: int| 0 <= i < position_of(s, offset) ==> (#[trigger] s[i]).0 < offset,
        forall|i: int| position_of(s, offset) <= i < s.len() ==> (#[trigger] s[i]).0 >= offset,
    decreases s.len(),
{
    if s.len() == 0 {
    } else if s.last().0 < offset {
        assert forall|i: int| 0 <= i < s.len() implies (#[trigger] s[i]).0 < offset by {
            if i < s.len() - 1 {
                assert(s[i].0 < s[s.len() - 1].0);
            }
        }
    } else {
        let t = s.drop_last();
        assert forall|a: int, b: int| 0 <= a < b < t.len() implies (#[trigger] t[a]).0 < (
        #[trigger] t[b]).0 by {
            assert(s[a].0 < s[b].0);
        }
        lemma_position_of(t, offset);
        assert forall|i: int| 0 <= i < position_of(s, offset) implies (#[trigger] s[i]).0
            < offset by {
            assert(t[i].0 < offset);
        }
        assert forall|i: int| position_of(s, offset) <= i < s.len() implies (#[trigger] s[i]).0
            >= offset by {
            if i < t.len() {
                assert(t[i].0 >= offset);
            }
        }
    }
}

/// The fragments received so far of one bundle, in offset order.
pub struct PendingBundle {
    total_data_length: u64,
    fragments: Vec<(u64, Vec<u8>)>,
}

/// The value of a pending bundle.
pub struct PendingModel {
    pub total: u64,
    pub fragments: Seq<Fragment>,
}

impl View for PendingBundle {
    type V = PendingModel;

    closed spec fn view(&self) -> PendingModel {
        PendingModel {
            total: self.total_data_length,
            fragments: fragment_views(self.fragments@),
        }
    }
}

impl PendingModel {
    /// No fragments yet.
    pub open spec fn empty(total: u64) -> PendingModel {
        PendingModel { total, fragments: Seq::empty() }
    }

    /// One fragment more.
    pub open spec fn with(self, offset: u64, chunk: Seq<u8>) -> PendingModel {
        PendingModel {
            total: self.total,
            fragments: with_fragment(self.fragments, offset, chunk),
        }
    }

    /// Enough bytes have arrived.
    pub open spec fn complete(self) -> bool {
        total_bytes(self.fragments) >= self.total
    }
}

impl PendingBundle {
    #[verifier::type_invariant]
    spec fn ordered(self) -> bool {
        in_order(fragment_views(self.fragments@))
    }

    /// A bundle of `total_data_length` bytes of which nothing has arrived.
    pub fn new(total_data_length: u64) -> (p: Self)
        ensures
            p@ == PendingModel::empty(total_data_length),
    {
        let p = PendingBundle { total_data_length, fragments: Vec::new() };
        assert(p@.fragments =~= Seq::<Fragment>::empty());
        p
    }

    /// Puts `chunk` at `offset`.
    pub fn insert(&mut self, offset: u64, chunk: Vec<u8>)
        ensures
            final(self)@ == old(self)@.with(offset, chunk@),
            in_order(final(self)@.fragments),
    {
        proof {
            use_type_invariant(&*self);
        }
        let mut fragments: Vec<(u64, Vec<u8>)> = Vec::new();
        std::mem::swap(&mut fragments, &mut self.fragments);
        let ghost before = fragments@;
        let ghost s = fragment_views(before);
        let mut n: usize = 0;
        while n < fragments.len() && fragments[n].0 < offset
            invariant
                n <= fragments@.len(),
                fragments@ == before,
                forall|i: int| 0 <= i < n ==> (#[trigger] before[i]).0 < offset,
            decreases fragments@.len() - n,
        {
            n = n + 1;
        }
        proof {
            assert forall|i: int| 0 <= i < n implies (#[trigger] s[i]).0 < offset by {
                assert(before[i].0 < offset);
            }
            assert forall|i: int| n <= i < s.len() implies (#[trigger] s[i]).0 >= offset by {
                if i > n {
                    assert(s[n as int].0 < s[i].0);
                }
            }
            lemma_with_fragment(s, offset, chunk@, n as int);
        }
        let ghost put: Fragment = (offset, chunk@);
        if n < fragments.len() && fragments[n].0 == offset {
            let mut slot = (offset, chunk);
            std::mem::swap(&mut slot, &mut fragments[n]);
            assert(fragment_views(fragments@) =~= s.update(n as int, put));
        } else {
            fragments.insert(n, (offset, chunk));
            assert(fragment_views(fragments@) =~= s.insert(n as int, put));
        }
        self.fragments = fragments;
    }

    /// How many bytes have arrived, as far as that fits.
    pub fn received_len(&self) -> (n: u64)
        ensures
            n == if total_bytes(self@.fragments) <= u64::MAX {
                total_bytes(self@.fragments)
            } else {
                u64::MAX as nat
            },
    {
        let ghost s = self@.fragments;
        let mut sum: u64 = 0;
        let mut i: usize = 0;
        while i < self.fragments.len()
            invariant
                i <= self.fragments@.len(),
                s == fragment_views(self.fragments@),
                sum == if total_bytes(s.take(i as int)) <= u64::MAX {
                    total_bytes(s.take(i as int))
                } else {
                    u64::MAX as nat
                },
            decreases self.fragments@.len() - i,
        {
            proof {
                assert(s.take(i + 1).drop_last() =~= s.take(i as int));
                assert(s.take(i + 1).last() == s[i as int]);
            }
            sum = sum.saturating_add(self.fragments[i].1.len() as u64);
            i = i + 1;
        }
        assert(s.take(i as int) =~= s);
        sum
    }

    /// Whether enough bytes have arrived.
    pub fn is_complete(&self) -> (r: bool)
        ensures
            r == self@.complete(),
    {
        self.received_len() >= self.total_data_length
    }

    /// The bytes that have arrived, in offset order.
    pub fn reassemble(self) -> (data: Vec<u8>)
        ensures
            data@ == joined(self@.fragments),
    {
        let ghost s = self@.fragments;
        let mut data: Vec<u8> = Vec::new();
        let mut i: usize = 0;
        while i < self.fragments.len()
            invariant
                i <= self.fragments@.len(),
                s == fragment_views(self.fragments@),
                data@ == joined(s.take(i as int)),
            decreases self.fragments@.len() - i,
        {
            proof {
                assert(s.take(i + 1).drop_last() =~= s.take(i as int));
                assert(s.take(i + 1).last() == s[i as int]);
            }
            push_all(&mut data, self.fragments[i].1.as_slice());
            i = i + 1;
        }
        assert(s.take(i as int) =~= s);
        data
    }
}

/// Joining puts the pieces one after the other: the pieces of two lists, the first list's first; a
/// single piece is joined to itself, and nothing to nothing.
pub proof fn law_joined_one_after_the_other(a: Seq<Fragment>, b: Seq<Fragment>, f: Fragment)
    ensures
        joined(a + b) == joined(a) + joined(b),
        joined(seq![f]) == f.1,
        joined(Seq::<Fragment>::empty()) == Seq::<u8>::empty(),
        total_bytes(a) == joined(a).len(),
{
    lemma_joined_add(a, b);
    lemma_joined_len(a);
    reveal_with_fuel(joined, 2);
    assert(seq![f].drop_last() =~= Seq::<Fragment>::empty());
    assert(joined(seq![f]) =~= f.1);
}

/// A bundle is complete exactly if the pieces that have arrived are together at least as long as
/// the bundle is said to be.
pub proof fn law_complete_exact(m: PendingModel, offset: u64, chunk: Seq<u8>, total: u64)
    ensures
        m.complete() <==> joined(m.fragments).len() >= m.total,
        m.with(offset, chunk).total == m.total,
        m.with(offset, chunk).fragments == with_fragment(m.fragments, offset, chunk),
        PendingModel::empty(total).total == total,
        PendingModel::empty(total).fragments == Seq::<Fragment>::empty(),
{
    lemma_joined_len(m.fragments);
}

/// A piece that arrives stands at its offset, in the place of what stood there, and everything else
/// stays; the pieces stay in the order of their offsets.
pub proof fn law_piece_stands_at_its_offset(
    s: Seq<Fragment>,
    offset: u64,
    chunk: Seq<u8>,
    f: Fragment,
)
    requires
        in_order(s),
    ensures
        in_order(with_fragment(s, offset, chunk)),
        with_fragment(s, offset, chunk).contains(f) <==> f == (offset, chunk) || s.contains(f) && f.0
            != offset,
{
    let n = position_of(s, offset);
    lemma_position_of(s, offset);
    lemma_with_fragment(s, offset, chunk, n);
    let w = with_fragment(s, offset, chunk);
    if n < s.len() && s[n].0 == offset {
        assert(w[n] == (offset, chunk));
        if w.contains(f) {
            let i = choose|i: int| 0 <= i < w.len() && w[i] == f;
            if i != n {
                assert(s[i] == f);
                if i < n {
                    assert(s[i].0 < s[n].0);
                } else {
                    assert(s[n].0 < s[i].0);
                }
            }
        }
        if s.contains(f) && f.0 != offset {
            let i = choose|i: int| 0 <= i < s.len() && s[i] == f;
            assert(w[i] == f);
        }
    } else {
        lemma_insert_contains(s, n, (offset, chunk));
        if s.contains(f) {
            let i = choose|i: int| 0 <= i < s.len() && s[i] == f;
            if i > n {
                assert(s[n].0 < s[i].0);
            }
            assert(f.0 != offset);
        }
    }
}

/// Every piece of a cut but the last has exactly `room` bytes, and piece `i` is what the payload
/// has from `i` times `room` on.
pub proof fn law_pieces_have_equal_size(payload: Seq<u8>, room: int, i: int)
    requires
        room > 0,
        payload.len() <= u64::MAX,
        0 <= i < cut(payload, room).len(),
    ensures
        ({
            let f = cut(payload, room)[i];
            let end = if (i + 1) * room < payload.len() {
                (i + 1) * room
            } else {
                payload.len() as int
            };
            &&& f.0 == i * room
            &&& f.1 == payload.subrange(i * room, end)
            &&& i + 1 < cut(payload, room).len() ==> f.1.len() == room
        }),
{
    lemma_piece_at(payload, 0, room, i);
}

proof fn lemma_piece_at(payload: Seq<u8>, offset: int, room: int, i: int)
    requires
        room > 0,
        0 <= offset,
        payload.len() <= u64::MAX,
        0 <= i < cut_from(payload, offset, room).len(),
    ensures
        ({
            let f = cut_from(payload, offset, room)[i];
            let start = offset + i * room;
            let end = if start + room < payload.len() {
                start + room
            } else {
                payload.len() as int
            };
            &&& 0 <= start < payload.len()
            &&& f.0 == start
            &&& f.1 == payload.subrange(start, end)
            &&& i + 1 < cut_from(payload, offset, room).len() ==> f.1.len() == room
            &&& (i + 1) * room == i * room + room
        }),
    decreases i,
{
    assert((i + 1) * room == i * room + room) by (nonlinear_arith);
    let end = if offset + room < payload.len() {
        offset + room
    } else {
        payload.len() as int
    };
    let rest = cut_from(payload, end, room);
    assert(cut_from(payload, offset, room) == seq![
        (offset as u64, payload.subrange(offset, end)),
    ] + rest);
    if i == 0 {
        assert(0 * room == 0);
    } else {
        assert(cut_from(payload, offset, room)[i] == rest[i - 1]);
        assert(end == offset + room);
        lemma_piece_at(payload, end, room, i - 1);
        assert((i - 1) * room + room == i * room) by (nonlinear_arith);
    }
}

/// The value of a list of pieces has one for each of them, in order.
pub proof fn law_piece_values(s: Seq<(u64, Vec<u8>)>, i: int)
    requires
        0 <= i < s.len(),
    ensures
        fragment_views(s).len() == s.len(),
        fragment_views(s)[i] == (s[i].0, s[i].1@),
{
}

} // verus!
