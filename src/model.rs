//! The mathematical model of the tee: every read or seek moves the cursor to
//! some offset `to`; the high-water mark rises to `to` where `to` lies beyond
//! it, and exactly the bytes between the two marks go to the sink.

use vstd::prelude::*;

verus! {

/// The high-water mark after the cursor has reached `to`.
pub open spec fn raised(high_water: int, to: int) -> int {
    if to > high_water {
        to
    } else {
        high_water
    }
}

/// The bytes the sink receives when the cursor reaches `to` while the first
/// `high_water` bytes of `content` are already mirrored.
pub open spec fn fresh_bytes(content: Seq<u8>, high_water: int, to: int) -> Seq<u8> {
    if to > high_water {
        content.subrange(high_water, to)
    } else {
        Seq::empty()
    }
}

} // verus!

verus! {

/// Each offset lies within a source of `len` bytes.
pub open spec fn within(visits: Seq<int>, len: int) -> bool {
    forall|i: int| 0 <= i < visits.len() ==> 0 <= #[trigger] visits[i] <= len
}

/// The high-water mark of a fresh tee after its cursor has reached each
/// offset of `visits` in turn.
pub open spec fn high_water_after(visits: Seq<int>) -> int
    decreases visits.len(),
{
    if visits.len() == 0 {
        0
    } else {
        raised(high_water_after(visits.drop_last()), visits.last())
    }
}

/// Everything a fresh tee hands its sink while its cursor reaches each offset
/// of `visits` in turn.
pub open spec fn mirrored_by(content: Seq<u8>, visits: Seq<int>) -> Seq<u8>
    decreases visits.len(),
{
    if visits.len() == 0 {
        Seq::empty()
    } else {
        mirrored_by(content, visits.drop_last()) + fresh_bytes(
            content,
            high_water_after(visits.drop_last()),
            visits.last(),
        )
    }
}

/// Step `i` of `visits` is the one that hands offset `k` to the sink.
pub open spec fn mirrors_at(visits: Seq<int>, i: int, k: int) -> bool {
    high_water_after(visits.take(i)) <= k < high_water_after(visits.take(i + 1))
}

/// Sum of `chunks`.
pub open spec fn total(chunks: Seq<nat>) -> int
    decreases chunks.len(),
{
    if chunks.len() == 0 {
        0
    } else {
        total(chunks.drop_last()) + chunks.last()
    }
}

/// The offsets that reads of `chunks[0]`, `chunks[1]`, ... bytes reach from
/// offset 0.
pub open spec fn read_offsets(chunks: Seq<nat>) -> Seq<int> {
    Seq::new(chunks.len(), |i: int| total(chunks.take(i + 1)))
}

/// The sink of a fresh tee holds exactly the first `high_water` bytes of the
/// source, whatever offsets its cursor has reached and in whatever order.
pub proof fn lemma_mirrored_is_prefix(content: Seq<u8>, visits: Seq<int>)
    requires
        within(visits, content.len() as int),
    ensures
        0 <= high_water_after(visits) <= content.len(),
        mirrored_by(content, visits) == content.subrange(0, high_water_after(visits)),
    decreases visits.len(),
{
    if visits.len() > 0 {
        let rest = visits.drop_last();
        assert(within(rest, content.len() as int)) by {
            assert forall|i: int| 0 <= i < rest.len() implies 0 <= #[trigger] rest[i]
                <= content.len() by {
                assert(rest[i] == visits[i]);
            }
        }
        lemma_mirrored_is_prefix(content, rest);
        assert(0 <= visits[visits.len() - 1] <= content.len());
        let hw = high_water_after(rest);
        let to = visits.last();
        if to > hw {
            assert(content.subrange(0, hw) + content.subrange(hw, to) =~= content.subrange(0, to));
        } else {
            assert(content.subrange(0, hw) + Seq::<u8>::empty() =~= content.subrange(0, hw));
        }
    }
}

/// The high-water mark is the greatest offset ever reached (or 0 where none
/// was).
pub proof fn lemma_high_water_is_max(visits: Seq<int>)
    requires
        forall|i: int| 0 <= i < visits.len() ==> 0 <= #[trigger] visits[i],
    ensures
        forall|i: int| 0 <= i < visits.len() ==> #[trigger] visits[i] <= high_water_after(visits),
        high_water_after(visits) == 0 || exists|i: int|
            0 <= i < visits.len() && #[trigger] visits[i] == high_water_after(visits),
    decreases visits.len(),
{
    if visits.len() > 0 {
        let rest = visits.drop_last();
        assert forall|i: int| 0 <= i < rest.len() implies 0 <= #[trigger] rest[i] by {
            assert(rest[i] == visits[i]);
        }
        lemma_high_water_is_max(rest);
        assert forall|i: int| 0 <= i < visits.len() implies #[trigger] visits[i]
            <= high_water_after(visits) by {
            if i < rest.len() {
                assert(rest[i] == visits[i]);
            }
        }
        if high_water_after(visits) != 0 && high_water_after(visits) != visits.last() {
            let i = choose|i: int| 0 <= i < rest.len() && #[trigger] rest[i] == high_water_after(rest);
            assert(visits[i] == rest[i]);
        }
    }
}

/// The high-water mark never falls: it is at least as high after more of the
/// same visits.
pub proof fn lemma_high_water_monotone(visits: Seq<int>, i: int, j: int)
    requires
        0 <= i <= j <= visits.len(),
    ensures
        high_water_after(visits.take(i)) <= high_water_after(visits.take(j)),
    decreases j - i,
{
    if i < j {
        lemma_high_water_monotone(visits, i, j - 1);
        assert(visits.take(j).drop_last() =~= visits.take(j - 1));
    }
}

/// Every offset below the final high-water mark is handed to the sink by
/// exactly one step, and no offset at or above it by any step.
pub proof fn lemma_each_offset_mirrored_once(visits: Seq<int>, k: int)
    requires
        0 <= k,
    ensures
        k < high_water_after(visits) ==> exists|i: int|
            0 <= i < visits.len() && #[trigger] mirrors_at(visits, i, k),
        forall|i: int, j: int|
            0 <= i < visits.len() && 0 <= j < visits.len() && #[trigger] mirrors_at(visits, i, k)
                && #[trigger] mirrors_at(visits, j, k) ==> i == j,
        k >= high_water_after(visits) ==> forall|i: int|
            0 <= i < visits.len() ==> !#[trigger] mirrors_at(visits, i, k),
    decreases visits.len(),
{
    assert(visits.take(visits.len() as int) =~= visits);
    assert forall|i: int, j: int|
        0 <= i < visits.len() && 0 <= j < visits.len() && #[trigger] mirrors_at(visits, i, k)
            && #[trigger] mirrors_at(visits, j, k) implies i == j by {
        if i < j {
            lemma_high_water_monotone(visits, i + 1, j);
        } else if j < i {
            lemma_high_water_monotone(visits, j + 1, i);
        }
    }
    assert forall|i: int| 0 <= i < visits.len() && k >= high_water_after(visits) implies !#[trigger] mirrors_at(visits, i, k) by {
        lemma_high_water_monotone(visits, i + 1, visits.len() as int);
    }
    if visits.len() > 0 && k < high_water_after(visits) {
        let rest = visits.drop_last();
        let last = visits.len() - 1;
        assert(visits.take(last) =~= rest);
        if k < high_water_after(rest) {
            lemma_each_offset_mirrored_once(rest, k);
            let i = choose|i: int| 0 <= i < rest.len() && #[trigger] mirrors_at(rest, i, k);
            assert(rest.take(i) =~= visits.take(i));
            assert(rest.take(i + 1) =~= visits.take(i + 1));
            assert(mirrors_at(visits, i, k));
        } else {
            assert(mirrors_at(visits, last, k));
        }
    }
}

/// Reading a source from offset 0 to its end, in chunks of any sizes, mirrors
/// the whole source into the sink.
pub proof fn lemma_round_trip(content: Seq<u8>, chunks: Seq<nat>)
    requires
        total(chunks) == content.len(),
    ensures
        mirrored_by(content, read_offsets(chunks)) == content,
{
    lemma_read_offsets(chunks);
    lemma_mirrored_is_prefix(content, read_offsets(chunks));
    assert(content.subrange(0, content.len() as int) =~= content);
}

/// The offsets of successive reads climb to the total, which is then the
/// high-water mark.
proof fn lemma_read_offsets(chunks: Seq<nat>)
    ensures
        within(read_offsets(chunks), total(chunks)),
        high_water_after(read_offsets(chunks)) == total(chunks),
    decreases chunks.len(),
{
    if chunks.len() > 0 {
        let rest = chunks.drop_last();
        lemma_read_offsets(rest);
        assert(chunks.take(chunks.len() as int) =~= chunks);
        assert(read_offsets(chunks).drop_last() =~= read_offsets(rest)) by {
            assert forall|i: int| 0 <= i < rest.len() implies #[trigger] read_offsets(chunks)[i]
                == read_offsets(rest)[i] by {
                assert(rest.take(i + 1) =~= chunks.take(i + 1));
            }
        }
        assert forall|i: int| 0 <= i < chunks.len() implies 0 <= #[trigger] read_offsets(chunks)[i]
            <= total(chunks) by {
            lemma_total_take(chunks, i + 1);
        }
    }
}

/// A prefix of non-negative chunks sums to no more than all of them.
proof fn lemma_total_take(chunks: Seq<nat>, n: int)
    requires
        0 <= n <= chunks.len(),
    ensures
        0 <= total(chunks.take(n)) <= total(chunks),
    decreases chunks.len() - n,
{
    if n < chunks.len() {
        lemma_total_take(chunks, n + 1);
        lemma_total_nonneg(chunks.take(n));
        assert(chunks.take(n + 1).drop_last() =~= chunks.take(n));
    } else {
        assert(chunks.take(n) =~= chunks);
        lemma_total_nonneg(chunks);
    }
}

proof fn lemma_total_nonneg(chunks: Seq<nat>)
    ensures
        total(chunks) >= 0,
    decreases chunks.len(),
{
    if chunks.len() > 0 {
        lemma_total_nonneg(chunks.drop_last());
    }
}

} // verus!

verus! {

/// A move that stays at or below the high-water mark hands the sink nothing.
pub proof fn lemma_nothing_fresh(log: Seq<u8>, content: Seq<u8>, high_water: int, to: int)
    requires
        to <= high_water,
    ensures
        log + fresh_bytes(content, high_water, to) == log,
{
    assert(log + fresh_bytes(content, high_water, to) =~= log);
}

} // verus!
