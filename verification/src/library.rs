//! Which files of the recordings directory are listed as recordings, and in
//! which order.
use vstd::prelude::*;
use crate::decimal::text_before;
use crate::recorder::lemma_timestamps_sort_by_time;
use crate::recorder::stamp_secs_limit;
use crate::recorder::timestamp_text;

verus! {

/// ASCII lower-casing of one byte.
pub open spec fn ascii_lower(b: u8) -> u8 {
    if 0x41 <= b <= 0x5A { (b + 0x20) as u8 } else { b }
}

/// `ext` equals `wav` up to ASCII case.
pub open spec fn is_wav_extension_spec(ext: Seq<u8>) -> bool {
    &&& ext.len() == 3
    &&& ascii_lower(ext[0]) == 0x77
    &&& ascii_lower(ext[1]) == 0x61
    &&& ascii_lower(ext[2]) == 0x76
}

/// An extension counts as `wav` exactly when it is three bytes long and they
/// are `w` or `W`, `a` or `A`, `v` or `V`, in that order.
pub proof fn lemma_wav_extension_letters(ext: Seq<u8>)
    ensures
        is_wav_extension_spec(ext) <==> (ext.len() == 3 && (ext[0] == 0x77 || ext[0] == 0x57) && (
        ext[1] == 0x61 || ext[1] == 0x41) && (ext[2] == 0x76 || ext[2] == 0x56)),
{
}

fn lower(b: u8) -> (r: u8)
    ensures
        r == ascii_lower(b),
{
    if 0x41 <= b && b <= 0x5A {
        b + 0x20
    } else {
        b
    }
}

/// Whether a file extension (the bytes after the last dot of the file name)
/// marks a WAV recording: `wav` in any ASCII case.
pub fn is_wav_extension(ext: &[u8]) -> (r: bool)
    ensures
        r == is_wav_extension_spec(ext@),
        r <==> (ext@.len() == 3 && (ext@[0] == 0x77 || ext@[0] == 0x57) && (ext@[1] == 0x61 || ext@[1]
            == 0x41) && (ext@[2] == 0x76 || ext@[2] == 0x56)),
{
    proof {
        lemma_wav_extension_letters(ext@);
    }
    ext.len() == 3 && lower(ext[0]) == 0x77 && lower(ext[1]) == 0x61 && lower(ext[2]) == 0x76
}

// ---------------------------------------------------------------------------
// Newest-first order of recording names
// ---------------------------------------------------------------------------

/// `a` sorts before `b` in text order (character by character; a proper
/// prefix sorts first). For UTF-8 strings this is also their byte order.
pub open spec fn text_lt(a: Seq<char>, b: Seq<char>) -> bool
    decreases a.len(),
{
    if b.len() == 0 {
        false
    } else if a.len() == 0 {
        true
    } else if a[0] != b[0] {
        (a[0] as int) < (b[0] as int)
    } else {
        text_lt(a.drop_first(), b.drop_first())
    }
}

/// Text order is asymmetric.
pub proof fn lemma_text_lt_asymmetric(a: Seq<char>, b: Seq<char>)
    ensures
        text_lt(a, b) ==> !text_lt(b, a),
    decreases a.len(),
{
    if a.len() > 0 && b.len() > 0 && a[0] == b[0] {
        lemma_text_lt_asymmetric(a.drop_first(), b.drop_first());
    }
}

/// Text order is transitive.
pub proof fn lemma_text_lt_transitive(a: Seq<char>, b: Seq<char>, c: Seq<char>)
    requires
        text_lt(a, b),
        text_lt(b, c),
    ensures
        text_lt(a, c),
    decreases a.len(),
{
    if a.len() > 0 && a[0] == b[0] && b[0] == c[0] {
        lemma_text_lt_transitive(a.drop_first(), b.drop_first(), c.drop_first());
    }
}

/// Distinct texts are ordered one way or the other.
pub proof fn lemma_text_lt_total(a: Seq<char>, b: Seq<char>)
    ensures
        a == b || text_lt(a, b) || text_lt(b, a),
    decreases a.len(),
{
    if a.len() > 0 && b.len() > 0 && a[0] == b[0] {
        lemma_text_lt_total(a.drop_first(), b.drop_first());
        if a.drop_first() == b.drop_first() {
            assert(a =~= seq![a[0]] + a.drop_first());
            assert(b =~= seq![b[0]] + b.drop_first());
        }
    } else if a.len() == 0 && b.len() == 0 {
        assert(a =~= b);
    }
}

/// Equal-length text that sorts first as `text_before` does also sorts first
/// in text order.
pub proof fn lemma_text_before_is_text_lt(a: Seq<char>, b: Seq<char>)
    requires
        text_before(a, b),
    ensures
        text_lt(a, b),
    decreases a.len(),
{
    let i = choose|i: int|
        0 <= i < a.len() && #[trigger] a.subrange(0, i) == b.subrange(0, i) && (a[i] as int) < (
        b[i] as int);
    if i > 0 {
        assert(a[0] == a.subrange(0, i)[0]);
        assert(b[0] == b.subrange(0, i)[0]);
        let a1 = a.drop_first();
        let b1 = b.drop_first();
        assert(a1.subrange(0, i - 1) =~= a.subrange(0, i).drop_first());
        assert(b1.subrange(0, i - 1) =~= b.subrange(0, i).drop_first());
        assert(a1[i - 1] == a[i] && b1[i - 1] == b[i]);
        assert(0 <= i - 1 < a1.len() && a1.subrange(0, i - 1) == b1.subrange(0, i - 1) && (a1[i
            - 1] as int) < (b1[i - 1] as int));
        lemma_text_before_is_text_lt(a1, b1);
    } else {
        assert((a[0] as int) < (b[0] as int));
    }
}

/// Whether `a` sorts before `b` in text order.
fn text_less(a: &Vec<char>, b: &Vec<char>) -> (r: bool)
    ensures
        r == text_lt(a@, b@),
{
    let mut i: usize = 0;
    assert(a@.skip(0) =~= a@);
    assert(b@.skip(0) =~= b@);
    while i < a.len() && i < b.len() && a[i] == b[i]
        invariant
            i <= a@.len(),
            i <= b@.len(),
            text_lt(a@, b@) == text_lt(a@.skip(i as int), b@.skip(i as int)),
        decreases a@.len() - i,
    {
        assert(a@.skip(i as int).drop_first() =~= a@.skip(i + 1));
        assert(b@.skip(i as int).drop_first() =~= b@.skip(i + 1));
        i += 1;
    }
    if i == b.len() {
        false
    } else if i == a.len() {
        true
    } else {
        proof {
            assert(a@.skip(i as int)[0] == a@[i as int]);
            assert(b@.skip(i as int)[0] == b@[i as int]);
        }
        a[i] < b[i]
    }
}

/// Recording `x` is listed before recording `y` when sorting newest-first:
/// its name does not sort before `y`'s, and equal names keep their order.
pub open spec fn listed_before(names: Seq<Seq<char>>, x: int, y: int) -> bool {
    &&& !text_lt(names[x], names[y])
    &&& (names[x] == names[y] ==> x < y)
}

/// Inserting a newer index `i` into a newest-first listing of earlier
/// indices, after all entries whose names do not sort before `i`'s, keeps the
/// listing newest-first and free of repeats.
proof fn lemma_insert_keeps_order(texts: Seq<Seq<char>>, old_order: Seq<usize>, pos: int, i: usize)
    requires
        i < texts.len(),
        0 <= pos <= old_order.len(),
        forall|p: int| 0 <= p < old_order.len() ==> old_order[p] < i,
        forall|p: int, q: int| 0 <= p < q < old_order.len() ==> old_order[p] != old_order[q],
        forall|p: int, q: int|
            0 <= p < q < old_order.len() ==> listed_before(
                texts,
                old_order[p] as int,
                old_order[q] as int,
            ),
        forall|p: int| 0 <= p < pos ==> !text_lt(texts[old_order[p] as int], texts[i as int]),
        pos < old_order.len() ==> text_lt(texts[old_order[pos] as int], texts[i as int]),
    ensures
        ({
            let order = old_order.insert(pos, i);
            &&& order.len() == old_order.len() + 1
            &&& forall|p: int| 0 <= p < order.len() ==> order[p] < i + 1
            &&& forall|p: int, q: int| 0 <= p < q < order.len() ==> order[p] != order[q]
            &&& forall|p: int, q: int|
                0 <= p < q < order.len() ==> listed_before(
                    texts,
                    order[p] as int,
                    order[q] as int,
                )
        }),
{
    let order = old_order.insert(pos, i);
    old_order.insert_ensures(pos, i);
    assert forall|q: int| pos <= q < old_order.len() implies text_lt(
        texts[old_order[q] as int],
        texts[i as int],
    ) by {
        let x = texts[old_order[pos] as int];
        let y = texts[old_order[q] as int];
        if q > pos {
            assert(listed_before(texts, old_order[pos] as int, old_order[q] as int));
            lemma_text_lt_total(x, y);
            if y != x {
                lemma_text_lt_transitive(y, x, texts[i as int]);
            }
        }
    }
    assert forall|p: int, q: int| 0 <= p < q < order.len() implies listed_before(
        texts,
        order[p] as int,
        order[q] as int,
    ) by {
        if p < pos && q == pos {
            assert(old_order[p] < i);
        } else if p == pos {
            let y = texts[old_order[q - 1] as int];
            assert(text_lt(y, texts[i as int]));
            lemma_text_lt_asymmetric(y, texts[i as int]);
        } else if q < pos {
            assert(listed_before(texts, old_order[p] as int, old_order[q] as int));
        } else if p < pos {
            assert(listed_before(texts, old_order[p] as int, old_order[q - 1] as int));
        } else {
            assert(listed_before(texts, old_order[p - 1] as int, old_order[q - 1] as int));
        }
    }
    assert forall|p: int, q: int| 0 <= p < q < order.len() implies order[p] != order[q] by {
        if p != pos && q != pos {
            let op = if p < pos { p } else { p - 1 };
            let oq = if q < pos { q } else { q - 1 };
            assert(old_order[op] != old_order[oq]);
        }
    }
}

/// The positions of `names` in the order in which they are listed: reverse
/// text order of the names, which for time-stamped names is newest first;
/// equal names keep their order.
pub fn newest_first(names: &Vec<Vec<char>>) -> (order: Vec<usize>)
    ensures
        order@.len() == names@.len(),
        forall|p: int| 0 <= p < order@.len() ==> order@[p] < names@.len(),
        forall|p: int, q: int| 0 <= p < q < order@.len() ==> order@[p] != order@[q],
        forall|p: int, q: int|
            0 <= p < q < order@.len() ==> listed_before(
                names@.map_values(|v: Vec<char>| v@),
                order@[p] as int,
                order@[q] as int,
            ),
{
    let ghost texts = names@.map_values(|v: Vec<char>| v@);
    let n = names.len();
    let mut order: Vec<usize> = Vec::new();
    let mut i: usize = 0;
    while i < n
        invariant
            n == names@.len(),
            texts == names@.map_values(|v: Vec<char>| v@),
            i <= n,
            order@.len() == i,
            forall|p: int| 0 <= p < order@.len() ==> order@[p] < i,
            forall|p: int, q: int| 0 <= p < q < order@.len() ==> order@[p] != order@[q],
            forall|p: int, q: int|
                0 <= p < q < order@.len() ==> listed_before(
                    texts,
                    order@[p] as int,
                    order@[q] as int,
                ),
        decreases n - i,
    {
        let mut pos: usize = 0;
        while pos < order.len() && !text_less(&names[order[pos]], &names[i])
            invariant
                n == names@.len(),
                texts == names@.map_values(|v: Vec<char>| v@),
                i < n,
                pos <= order@.len(),
                forall|p: int| 0 <= p < order@.len() ==> order@[p] < i,
                forall|p: int| 0 <= p < pos ==> !text_lt(texts[order@[p] as int], texts[i as int]),
            decreases order@.len() - pos,
        {
            pos += 1;
        }
        let ghost old_order = order@;
        order.insert(pos, i);
        proof {
            lemma_insert_keeps_order(texts, old_order, pos as int, i);
        }
        i += 1;
    }
    order
}

/// Listing recordings whose names are the file stems of their start times
/// (before year 10000) in the order `newest_first` gives puts later
/// recordings first.
pub proof fn lemma_newest_first_by_time(names: Seq<Seq<char>>, times: Seq<nat>, x: int, y: int)
    requires
        names.len() == times.len(),
        0 <= x < names.len(),
        0 <= y < names.len(),
        forall|i: int| 0 <= i < names.len() ==> #[trigger] names[i] == timestamp_text(times[i]),
        forall|i: int| 0 <= i < names.len() ==> #[trigger] times[i] < stamp_secs_limit(),
        listed_before(names, x, y),
    ensures
        times[x] >= times[y],
{
    if times[x] < times[y] {
        lemma_timestamps_sort_by_time(times[x], times[y]);
        assert(names[x] == timestamp_text(times[x]));
        assert(names[y] == timestamp_text(times[y]));
        lemma_text_before_is_text_lt(names[x], names[y]);
    }
}

} // verus!
