//! The mathematical model of line splitting: a buffer is cut at newline
//! bytes into segments, and rejoining the segments with single newlines
//! restores the buffer exactly.

use vstd::prelude::*;

verus! {

/// The byte that separates segments.
pub const NEWLINE: u8 = 10;

/// How many newline bytes `s` contains.
pub open spec fn newline_count(s: Seq<u8>) -> nat
    decreases s.len(),
{
    if s.len() == 0 {
        0
    } else if s[0] == NEWLINE {
        1 + newline_count(s.drop_first())
    } else {
        newline_count(s.drop_first())
    }
}

/// The segments of `s`: the pieces between newline bytes, in order.
/// A buffer with `k` newlines has `k + 1` segments, some possibly empty.
pub open spec fn segments(s: Seq<u8>) -> Seq<Seq<u8>>
    decreases s.len(),
{
    if s.len() == 0 {
        seq![Seq::<u8>::empty()]
    } else if s[0] == NEWLINE {
        seq![Seq::<u8>::empty()] + segments(s.drop_first())
    } else {
        let rest = segments(s.drop_first());
        seq![seq![s[0]] + rest[0]] + rest.drop_first()
    }
}

/// Rejoins segments, re-inserting one newline byte between consecutive
/// segments.
pub open spec fn joined(segs: Seq<Seq<u8>>) -> Seq<u8>
    decreases segs.len(),
{
    if segs.len() == 0 {
        Seq::empty()
    } else if segs.len() == 1 {
        segs[0]
    } else {
        segs[0] + seq![NEWLINE] + joined(segs.drop_first())
    }
}

/// Newline counting distributes over concatenation.
pub proof fn lemma_newline_count_add(a: Seq<u8>, b: Seq<u8>)
    ensures
        newline_count(a + b) == newline_count(a) + newline_count(b),
    decreases a.len(),
{
    if a.len() == 0 {
        assert(a + b =~= b);
    } else {
        assert((a + b).drop_first() =~= a.drop_first() + b);
        assert((a + b)[0] == a[0]);
        lemma_newline_count_add(a.drop_first(), b);
    }
}

/// A single byte counts one newline exactly when it is the newline byte.
pub proof fn lemma_newline_count_singleton(b: u8)
    ensures
        newline_count(seq![b]) == (if b == NEWLINE { 1nat } else { 0nat }),
{
    assert(newline_count(Seq::<u8>::empty()) == 0);
    assert(seq![b].drop_first() =~= Seq::<u8>::empty());
}

/// A prefix of `s` never has more newlines than `s` itself; the remainder
/// accounts for the difference.
pub proof fn lemma_newline_count_take_skip(s: Seq<u8>, m: int)
    requires
        0 <= m <= s.len(),
    ensures
        newline_count(s) == newline_count(s.take(m)) + newline_count(s.skip(m)),
{
    assert(s =~= s.take(m) + s.skip(m));
    lemma_newline_count_add(s.take(m), s.skip(m));
}

/// A sequence without newline bytes counts zero newlines.
pub proof fn lemma_newline_count_zero(s: Seq<u8>)
    requires
        forall|j: int| 0 <= j < s.len() ==> s[j] != NEWLINE,
    ensures
        newline_count(s) == 0,
    decreases s.len(),
{
    if s.len() > 0 {
        assert(forall|j: int| 0 <= j < s.drop_first().len() ==> s.drop_first()[j] != NEWLINE);
        lemma_newline_count_zero(s.drop_first());
    }
}

/// A buffer with `k` newline bytes splits into exactly `k + 1` segments.
pub proof fn lemma_segments_count(s: Seq<u8>)
    ensures
        segments(s).len() == newline_count(s) + 1,
    decreases s.len(),
{
    if s.len() > 0 {
        lemma_segments_count(s.drop_first());
    }
}

/// If position `q` of `s` holds a newline that `j` earlier newlines
/// precede, then the first `j + 1` segments of `s`, rejoined, are exactly
/// the bytes of `s` before `q`: what stands before a newline is the
/// segments that newline closes off, with their separators.
pub proof fn lemma_joined_take(s: Seq<u8>, q: int)
    requires
        0 <= q < s.len(),
        s[q] == NEWLINE,
    ensures
        joined(segments(s).take(newline_count(s.take(q)) + 1int)) == s.take(q),
    decreases s.len(),
{
    lemma_segments_count(s);
    lemma_newline_count_take_skip(s, q);
    if q == 0 {
        assert(s.take(0) =~= Seq::<u8>::empty());
        assert(newline_count(s.take(0)) == 0);
        assert(segments(s).take(1) =~= seq![Seq::<u8>::empty()]);
        assert(joined(segments(s).take(1)) =~= s.take(0));
    } else {
        let rest = s.drop_first();
        assert(rest[q - 1] == s[q]);
        lemma_joined_take(rest, q - 1);
        let jr = newline_count(rest.take(q - 1));
        lemma_segments_count(rest);
        lemma_newline_count_take_skip(rest, q - 1);
        if s[0] == NEWLINE {
            assert(s.take(q) =~= seq![NEWLINE] + rest.take(q - 1));
            lemma_newline_count_singleton(NEWLINE);
            lemma_newline_count_add(seq![NEWLINE], rest.take(q - 1));
            let j = newline_count(s.take(q));
            assert(j == jr + 1);
            let segs = segments(s).take(j + 1int);
            assert(segs =~= seq![Seq::<u8>::empty()] + segments(rest).take(jr + 1int));
            assert(segs.len() >= 2);
            assert(joined(segs) == segs[0] + seq![NEWLINE] + joined(segs.drop_first()));
            assert(segs.drop_first() =~= segments(rest).take(jr + 1int));
            assert(joined(segs) =~= s.take(q));
        } else {
            assert(s.take(q) =~= seq![s[0]] + rest.take(q - 1));
            lemma_newline_count_singleton(s[0]);
            lemma_newline_count_add(seq![s[0]], rest.take(q - 1));
            let j = newline_count(s.take(q));
            assert(j == jr);
            let restsegs = segments(rest);
            assert(jr + 1 <= restsegs.len());
            let segs = segments(s).take(j + 1int);
            if j == 0 {
                assert(segs =~= seq![seq![s[0]] + restsegs[0]]);
                assert(restsegs.take(1) =~= seq![restsegs[0]]);
                assert(joined(restsegs.take(1)) == restsegs[0]);
                assert(joined(segs) == seq![s[0]] + restsegs[0]);
                assert(joined(segs) =~= s.take(q));
            } else {
                assert(segs =~= seq![seq![s[0]] + restsegs[0]] + restsegs.drop_first().take(
                    j as int,
                ));
                assert(segs.len() >= 2);
                assert(joined(segs) == segs[0] + seq![NEWLINE] + joined(segs.drop_first()));
                let rtake = restsegs.take(j + 1int);
                assert(rtake.len() >= 2);
                assert(joined(rtake) == rtake[0] + seq![NEWLINE] + joined(rtake.drop_first()));
                assert(rtake.drop_first() =~= segs.drop_first());
                assert(rtake[0] == restsegs[0]);
                assert(joined(segs) =~= s.take(q));
            }
        }
    }
}

/// The position of the first newline byte of `s` at or after `m`, or the
/// length of `s` when none follows.
pub open spec fn next_newline(s: Seq<u8>, m: int) -> int
    decreases s.len() - m,
{
    if m < 0 || m >= s.len() {
        s.len() as int
    } else if s[m] == NEWLINE {
        m
    } else {
        next_newline(s, m + 1)
    }
}

/// `next_newline` finds a newline, skips nothing but non-newlines, and
/// stays within `s`.
pub proof fn lemma_next_newline(s: Seq<u8>, m: int)
    requires
        0 <= m <= s.len(),
    ensures
        m <= next_newline(s, m) <= s.len(),
        forall|j: int| m <= j < next_newline(s, m) ==> s[j] != NEWLINE,
        next_newline(s, m) < s.len() ==> s[next_newline(s, m)] == NEWLINE,
    decreases s.len() - m,
{
    if m < s.len() && s[m] != NEWLINE {
        lemma_next_newline(s, m + 1);
    }
}

/// A prefix of a prefix is a prefix.
pub proof fn lemma_prefix_trans(a: Seq<u8>, b: Seq<u8>, c: Seq<u8>)
    requires
        a.is_prefix_of(b),
        b.is_prefix_of(c),
    ensures
        a.is_prefix_of(c),
{
    assert(a =~= c.subrange(0, a.len() as int));
}

/// The bytes of `s` up to any position `m` inside segment `i` lie within
/// the first `i + 1` segments rejoined: a write call that stopped while
/// segment `i` was under way has forwarded nothing past that segment.
pub proof fn lemma_take_le_joined(s: Seq<u8>, m: int, i: nat)
    requires
        0 <= m <= s.len(),
        i == newline_count(s.take(m)),
    ensures
        s.take(m).is_prefix_of(joined(segments(s).take(i + 1int))),
{
    let q = next_newline(s, m);
    lemma_next_newline(s, m);
    assert(s.take(q) =~= s.take(m) + s.subrange(m, q));
    lemma_newline_count_add(s.take(m), s.subrange(m, q));
    assert(forall|j: int|
        0 <= j < s.subrange(m, q).len() ==> s.subrange(m, q)[j] != NEWLINE) by {
        assert(forall|j: int|
            0 <= j < s.subrange(m, q).len() ==> s.subrange(m, q)[j] == s[j + m]);
    };
    lemma_newline_count_zero(s.subrange(m, q));
    if q == s.len() {
        assert(s.take(q) =~= s);
        lemma_segments_count(s);
        assert(segments(s).take(i + 1int) =~= segments(s));
        lemma_joined_segments(s);
        assert(s.take(m).is_prefix_of(s)) by {
            assert(s.subrange(0, m) =~= s.take(m));
        };
    } else {
        lemma_joined_take(s, q);
        assert(s.take(m).is_prefix_of(s.take(q))) by {
            assert(s.take(q).subrange(0, m) =~= s.take(m));
        };
    }
}

/// Splitting a buffer at newlines and rejoining the segments with single
/// newlines restores the buffer byte for byte: the split consumes exactly
/// the newlines that the join re-inserts.
pub proof fn lemma_joined_segments(s: Seq<u8>)
    ensures
        joined(segments(s)) == s,
    decreases s.len(),
{
    lemma_segments_count(s);
    if s.len() == 0 {
        assert(joined(segments(s)) =~= s);
    } else if s[0] == NEWLINE {
        lemma_joined_segments(s.drop_first());
        lemma_segments_count(s.drop_first());
        assert(segments(s).drop_first() =~= segments(s.drop_first()));
        assert(joined(segments(s)) =~= s);
    } else {
        lemma_joined_segments(s.drop_first());
        lemma_segments_count(s.drop_first());
        let rest = segments(s.drop_first());
        if rest.len() == 1 {
            assert(joined(rest) == rest[0]);
            assert(joined(segments(s)) =~= s);
        } else {
            let segs = segments(s);
            assert(segs.drop_first() =~= rest.drop_first());
            assert(joined(segs) == segs[0] + seq![NEWLINE] + joined(segs.drop_first()));
            assert(joined(rest) == rest[0] + seq![NEWLINE] + joined(rest.drop_first()));
            assert(s =~= seq![s[0]] + s.drop_first());
            assert(joined(segs) =~= s);
        }
    }
}

}
