//! Root selection, octave folding, interval canonicalisation and the
//! chord-shape table.

use crate::note::{note_name, note_text};
use vstd::prelude::*;
use vstd::string::*;

verus! {

/// The chord shapes the classifier knows.
#[derive(Clone, Copy, Debug, PartialEq, Eq, Structural)]
pub enum Quality {
    Major,
    Minor,
    Seventh,
    MajorSeventh,
    MinorSeventh,
    MinorMajorSeventh,
    Augmented,
    Diminished,
    DiminishedSeventh,
    MinorSeventhFlatFive,
}

/// The semitone offsets from the root that identify a chord shape.
pub open spec fn template(q: Quality) -> Seq<i32> {
    match q {
        Quality::Major => seq![0i32, 4i32, 7i32],
        Quality::Minor => seq![0i32, 3i32, 7i32],
        Quality::Seventh => seq![0i32, 4i32, 7i32, 10i32],
        Quality::MajorSeventh => seq![0i32, 4i32, 7i32, 11i32],
        Quality::MinorSeventh => seq![0i32, 3i32, 7i32, 10i32],
        Quality::MinorMajorSeventh => seq![0i32, 3i32, 7i32, 11i32],
        Quality::Augmented => seq![0i32, 4i32, 8i32],
        Quality::Diminished => seq![0i32, 3i32, 6i32],
        Quality::DiminishedSeventh => seq![0i32, 3i32, 6i32, 9i32],
        Quality::MinorSeventhFlatFive => seq![0i32, 3i32, 6i32, 10i32],
    }
}

/// Every element is smaller than each element after it.
pub open spec fn strictly_ascending(s: Seq<i32>) -> bool {
    forall|i: int, j: int| 0 <= i < j < s.len() ==> s[i] < s[j]
}

/// The two sequences hold the same values, whatever their order and
/// multiplicity.
pub open spec fn same_values(a: Seq<i32>, b: Seq<i32>) -> bool {
    forall|x: i32| a.contains(x) <==> b.contains(x)
}

/// Every chord shape is a canonical key: it starts at the root's own
/// offset 0 and rises strictly, so it holds no offset twice.
pub proof fn template_is_canonical(q: Quality)
    ensures
        strictly_ascending(template(q)),
        template(q).len() >= 3,
        template(q)[0] == 0,
{
}

/// A strictly ascending sequence is determined by the values it holds.
pub proof fn ascending_is_unique(a: Seq<i32>, b: Seq<i32>)
    requires
        strictly_ascending(a),
        strictly_ascending(b),
        same_values(a, b),
    ensures
        a == b,
    decreases a.len(),
{
    if a.len() == 0 {
        if b.len() > 0 {
            assert(b.contains(b[0]));
            assert(a.contains(b[0]));
        }
        assert(a =~= b);
    } else {
        let la = a.last();
        assert(a.contains(la));
        assert(b.contains(la));
        let lb = b.last();
        assert(b.contains(lb));
        assert(a.contains(lb));
        let i = choose|i: int| 0 <= i < a.len() && a[i] == lb;
        let j = choose|j: int| 0 <= j < b.len() && b[j] == la;
        assert(la == lb);
        let a0 = a.drop_last();
        let b0 = b.drop_last();
        assert forall|x: i32| a0.contains(x) <==> b0.contains(x) by {
            if a0.contains(x) {
                let k = choose|k: int| 0 <= k < a0.len() && a0[k] == x;
                assert(a[k] == x);
                assert(a.contains(x));
                assert(b.contains(x));
                let m = choose|m: int| 0 <= m < b.len() && b[m] == x;
                assert(m < b.len() - 1);
                assert(b0[m] == x);
            }
            if b0.contains(x) {
                let k = choose|k: int| 0 <= k < b0.len() && b0[k] == x;
                assert(b[k] == x);
                assert(b.contains(x));
                assert(a.contains(x));
                let m = choose|m: int| 0 <= m < a.len() && a[m] == x;
                assert(m < a.len() - 1);
                assert(a0[m] == x);
            }
        }
        ascending_is_unique(a0, b0);
        assert(a =~= a0.push(la));
        assert(b =~= b0.push(lb));
    }
}

/// Sorts the offsets ascending and drops repeated values.
///
/// The result is the one strictly ascending sequence that holds exactly
/// the given values; an input that is already strictly ascending comes
/// back unchanged.
pub fn normalize_offsets(offsets: &Vec<i32>) -> (out: Vec<i32>)
    ensures
        strictly_ascending(out@),
        same_values(out@, offsets@),
        strictly_ascending(offsets@) ==> out@ == offsets@,
{
    let mut out: Vec<i32> = Vec::new();
    let mut k: usize = 0;
    while k < offsets.len()
        invariant
            k <= offsets.len(),
            strictly_ascending(out@),
            same_values(out@, offsets@.take(k as int)),
            strictly_ascending(offsets@) ==> out@ == offsets@.take(k as int),
        decreases offsets.len() - k,
    {
        let x: i32 = offsets[k];
        let ghost before = out@;
        let ghost seen = offsets@.take(k as int);
        let mut i: usize = 0;
        while i < out.len() && out[i] < x
            invariant
                i <= out.len(),
                forall|j: int| 0 <= j < i ==> out@[j] < x,
            decreases out.len() - i,
        {
            i += 1;
        }
        if i == out.len() || out[i] != x {
            out.insert(i, x);
            assert(strictly_ascending(out@));
        }
        proof {
            let next = offsets@.take(k as int + 1);
            assert(next =~= seen.push(x));
            assert forall|y: i32| out@.contains(y) <==> next.contains(y) by {
                if out@.contains(y) {
                    let m = choose|m: int| 0 <= m < out@.len() && out@[m] == y;
                    if y != x {
                        if out@.len() == before.len() {
                            assert(before.contains(y));
                        } else {
                            if m < i {
                                assert(before[m] == y);
                            } else {
                                assert(before[m - 1] == y);
                            }
                            assert(before.contains(y));
                        }
                        assert(seen.contains(y));
                        let n = choose|n: int| 0 <= n < seen.len() && seen[n] == y;
                        assert(next[n] == y);
                    } else {
                        assert(next[k as int] == y);
                    }
                }
                if next.contains(y) {
                    let n = choose|n: int| 0 <= n < next.len() && next[n] == y;
                    if n < k {
                        assert(seen[n] == y);
                        assert(seen.contains(y));
                        assert(before.contains(y));
                        let m = choose|m: int| 0 <= m < before.len() && before[m] == y;
                        if out@.len() == before.len() {
                            assert(out@[m] == y);
                        } else if m < i {
                            assert(out@[m] == y);
                        } else {
                            assert(out@[m + 1] == y);
                        }
                    } else {
                        assert(y == x);
                        assert(out@[i as int] == x);
                    }
                }
            }
            if strictly_ascending(offsets@) {
                assert(before == seen);
                assert(forall|j: int| 0 <= j < k ==> offsets@[j] < x);
                assert(i == k);
                assert(out@ =~= next);
            }
        }
        k += 1;
    }
    assert(offsets@.take(k as int) =~= offsets@);
    out
}

/// The chord shape whose template is exactly `key`, if there is one.
pub open spec fn shape_of(key: Seq<i32>) -> Option<Quality> {
    if key == template(Quality::Major) {
        Some(Quality::Major)
    } else if key == template(Quality::Minor) {
        Some(Quality::Minor)
    } else if key == template(Quality::Seventh) {
        Some(Quality::Seventh)
    } else if key == template(Quality::MajorSeventh) {
        Some(Quality::MajorSeventh)
    } else if key == template(Quality::MinorSeventh) {
        Some(Quality::MinorSeventh)
    } else if key == template(Quality::MinorMajorSeventh) {
        Some(Quality::MinorMajorSeventh)
    } else if key == template(Quality::Augmented) {
        Some(Quality::Augmented)
    } else if key == template(Quality::Diminished) {
        Some(Quality::Diminished)
    } else if key == template(Quality::DiminishedSeventh) {
        Some(Quality::DiminishedSeventh)
    } else if key == template(Quality::MinorSeventhFlatFive) {
        Some(Quality::MinorSeventhFlatFive)
    } else {
        None
    }
}

/// The table holds no key twice: a shape is found for a key exactly when
/// the key is that shape's template.
pub proof fn lookup_is_exact(key: Seq<i32>, q: Quality)
    ensures
        shape_of(key) == Some(q) <==> key == template(q),
{
    if key == template(q) {
        assert(template(q).len() >= 3);
        assert(template(q)[1] == key[1] && template(q)[2] == key[2]);
        if key.len() == 4 {
            assert(template(q)[3] == key[3]);
        }
    }
}

/// Looks the offsets up in the chord-shape table as an exact key.
///
/// A shape is returned only for a sequence that equals its template
/// element for element; subsets, supersets and reorderings match nothing.
pub fn classify(offsets: &Vec<i32>) -> (r: Option<Quality>)
    ensures
        r == shape_of(offsets@),
{
    let n: usize = offsets.len();
    if n != 3 && n != 4 {
        return None;
    }
    let a: i32 = offsets[0];
    let b: i32 = offsets[1];
    let c: i32 = offsets[2];
    if a != 0 {
        return None;
    }
    let r = if n == 3 {
        if b == 4 && c == 7 {
            Some(Quality::Major)
        } else if b == 3 && c == 7 {
            Some(Quality::Minor)
        } else if b == 4 && c == 8 {
            Some(Quality::Augmented)
        } else if b == 3 && c == 6 {
            Some(Quality::Diminished)
        } else {
            None
        }
    } else {
        let d: i32 = offsets[3];
        if b == 4 && c == 7 && d == 10 {
            Some(Quality::Seventh)
        } else if b == 4 && c == 7 && d == 11 {
            Some(Quality::MajorSeventh)
        } else if b == 3 && c == 7 && d == 10 {
            Some(Quality::MinorSeventh)
        } else if b == 3 && c == 7 && d == 11 {
            Some(Quality::MinorMajorSeventh)
        } else if b == 3 && c == 6 && d == 9 {
            Some(Quality::DiminishedSeventh)
        } else if b == 3 && c == 6 && d == 10 {
            Some(Quality::MinorSeventhFlatFive)
        } else {
            None
        }
    };
    proof {
        match r {
            Some(q) => {
                assert(offsets@ =~= template(q));
                lookup_is_exact(offsets@, q);
            },
            None => {
                assert forall|q: Quality| offsets@ != template(q) by {
                    if offsets@ == template(q) {
                        assert(template(q).len() == n);
                        assert(template(q)[0] == a && template(q)[1] == b && template(q)[2] == c);
                        if n == 4 {
                            assert(template(q)[3] == offsets@[3]);
                        }
                    }
                }
            },
        }
    }
    r
}


/// Picks a chord shape for a set of intervals in any order: the offsets
/// are brought into canonical form and looked up as an exact key.
///
/// A shape is found exactly when the offsets hold the values of its
/// template and no others; otherwise there is none.
pub fn identify(offsets: &Vec<i32>) -> (r: Option<Quality>)
    ensures
        forall|q: Quality| r == Some(q) <==> same_values(offsets@, #[trigger] template(q)),
{
    let key = normalize_offsets(offsets);
    let r = classify(&key);
    proof {
        assert forall|q: Quality| r == Some(q) <==> same_values(
            offsets@,
            #[trigger] template(q),
        ) by {
            lookup_is_exact(key@, q);
            if same_values(offsets@, template(q)) {
                template_is_canonical(q);
                ascending_is_unique(key@, template(q));
            }
        }
    }
    r
}

/// `m` occurs in `s` and nothing in `s` is below it.
pub open spec fn is_lowest(s: Seq<u64>, m: u64) -> bool {
    s.contains(m) && forall|i: int| 0 <= i < s.len() ==> m <= s[i]
}

/// Chooses the root among candidate frequencies: the lowest one.
///
/// There is no root when there is no candidate, or when a candidate has
/// frequency 0, which no pitch has; both cases give `None`.
pub fn select_root(freqs: &Vec<u64>) -> (r: Option<u64>)
    ensures
        r.is_none() <==> (freqs@.len() == 0 || freqs@.contains(0)),
        match r {
            Some(m) => m > 0 && is_lowest(freqs@, m),
            None => true,
        },
{
    if freqs.len() == 0 {
        return None;
    }
    let mut low: u64 = freqs[0];
    let mut k: usize = 1;
    assert(freqs@.take(1)[0] == low);
    while k < freqs.len()
        invariant
            1 <= k <= freqs.len(),
            is_lowest(freqs@.take(k as int), low),
        decreases freqs.len() - k,
    {
        let ghost seen = freqs@.take(k as int);
        let ghost prev = low;
        if freqs[k] < low {
            low = freqs[k];
        }
        proof {
            let next = freqs@.take(k as int + 1);
            let w = choose|w: int| 0 <= w < seen.len() && seen[w] == prev;
            assert(next[w] == prev);
            assert(next[k as int] == freqs@[k as int]);
            assert forall|i: int| 0 <= i < next.len() implies low <= next[i] by {
                if i < k {
                    assert(seen[i] == next[i]);
                }
            }
        }
        k += 1;
    }
    proof {
        assert(freqs@.take(k as int) =~= freqs@);
        if freqs@.contains(0) {
            let z = choose|z: int| 0 <= z < freqs@.len() && freqs@[z] == 0;
            assert(low <= freqs@[z]);
        }
    }
    if low == 0 {
        None
    } else {
        Some(low)
    }
}

/// The test that keeps a frequency within one octave above `root`:
/// anything at or beyond twice the root is an octave duplicate.
pub open spec fn below_octave(root: u64) -> spec_fn(u64) -> bool {
    |f: u64| f < 2 * root
}

/// Drops the octave duplicates: every candidate at or above twice the
/// root goes, the others stay in their order.
pub fn within_octave(freqs: &Vec<u64>, root: u64) -> (out: Vec<u64>)
    ensures
        out@ == freqs@.filter(below_octave(root)),
{
    let mut out: Vec<u64> = Vec::new();
    let mut k: usize = 0;
    proof {
        reveal(Seq::filter);
        assert(freqs@.take(0) =~= Seq::<u64>::empty());
    }
    while k < freqs.len()
        invariant
            k <= freqs.len(),
            out@ == freqs@.take(k as int).filter(below_octave(root)),
        decreases freqs.len() - k,
    {
        let f: u64 = freqs[k];
        proof {
            reveal(Seq::filter);
            let next = freqs@.take(k as int + 1);
            assert(next.drop_last() =~= freqs@.take(k as int));
            assert(next.last() == f);
        }
        if f / 2 < root {
            out.push(f);
        }
        k += 1;
    }
    assert(freqs@.take(k as int) =~= freqs@);
    out
}

/// With a positive root that is the lowest candidate, octave folding
/// keeps the root, and keeps only frequencies from the root up to, not
/// including, twice the root.
pub proof fn root_survives_folding(freqs: Seq<u64>, root: u64)
    requires
        root > 0,
        is_lowest(freqs, root),
    ensures
        freqs.filter(below_octave(root)).contains(root),
        forall|i: int|
            0 <= i < freqs.filter(below_octave(root)).len() ==> root <= (
            #[trigger] freqs.filter(below_octave(root))[i]) < 2 * root,
{
    let kept = freqs.filter(below_octave(root));
    let w = choose|w: int| 0 <= w < freqs.len() && freqs[w] == root;
    freqs.lemma_filter_contains(below_octave(root), w);
    assert forall|i: int| 0 <= i < kept.len() implies root <= (#[trigger] kept[i]) < 2 * root by {
        freqs.lemma_filter_pred(below_octave(root), i);
        assert(kept.contains(kept[i]));
        freqs.lemma_filter_contains_rev(below_octave(root), kept[i]);
        let j = choose|j: int| 0 <= j < freqs.len() && freqs[j] == kept[i];
        assert(root <= freqs[j]);
    }
}


/// The name of a chord shape; the empty text stands for a pattern that
/// the table does not hold.
pub open spec fn quality_text(q: Option<Quality>) -> Seq<char> {
    match q {
        Some(Quality::Major) => "major"@,
        Some(Quality::Minor) => "minor"@,
        Some(Quality::Seventh) => "seventh"@,
        Some(Quality::MajorSeventh) => "major_seventh"@,
        Some(Quality::MinorSeventh) => "minor_seventh"@,
        Some(Quality::MinorMajorSeventh) => "minor_major_seventh"@,
        Some(Quality::Augmented) => "augmented"@,
        Some(Quality::Diminished) => "diminished"@,
        Some(Quality::DiminishedSeventh) => "diminished_seventh"@,
        Some(Quality::MinorSeventhFlatFive) => "minor_seventh_flat_five"@,
        None => ""@,
    }
}

/// The text of a chord: the root's note label, a space, and the name of
/// the chord shape.
pub open spec fn chord_text(steps: int, octave: int, q: Option<Quality>) -> Seq<char> {
    note_text(steps, octave) + " "@ + quality_text(q)
}

/// The name of a chord shape, empty for an unclassified pattern.
pub fn quality_name(q: Option<Quality>) -> (r: &'static str)
    ensures
        r@ == quality_text(q),
{
    match q {
        Some(Quality::Major) => "major",
        Some(Quality::Minor) => "minor",
        Some(Quality::Seventh) => "seventh",
        Some(Quality::MajorSeventh) => "major_seventh",
        Some(Quality::MinorSeventh) => "minor_seventh",
        Some(Quality::MinorMajorSeventh) => "minor_major_seventh",
        Some(Quality::Augmented) => "augmented",
        Some(Quality::Diminished) => "diminished",
        Some(Quality::DiminishedSeventh) => "diminished_seventh",
        Some(Quality::MinorSeventhFlatFive) => "minor_seventh_flat_five",
        None => "",
    }
}

/// Writes out a chord: the label of the root, given by its semitone step
/// and octave, then a space, then the name of the shape. An unclassified
/// pattern is reported as the bare root note followed by the space.
pub fn chord_label(steps: i64, octave: i64, q: Option<Quality>) -> (r: String)
    ensures
        r@ == chord_text(steps as int, octave as int, q),
{
    let mut text = note_name(steps, octave);
    text.append(" ");
    text.append(quality_name(q));
    text
}

} // verus!
