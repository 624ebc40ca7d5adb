use vstd::prelude::*;
use crate::geometry::{GlyphBox, box_precedes, precedes, lemma_precedes_order};

verus! {

broadcast use vstd::seq_lib::group_seq_properties;

/// `b` inserted in front of the first element of `s` that it precedes.
pub open spec fn insert_box(b: GlyphBox, s: Seq<GlyphBox>) -> Seq<GlyphBox>
    decreases s.len(),
{
    if s.len() == 0 {
        seq![b]
    } else if box_precedes(b, s[0]) {
        seq![b] + s
    } else {
        seq![s[0]] + insert_box(b, s.drop_first())
    }
}

/// The boxes in packing order (insertion sort by `box_precedes`).
pub open spec fn sorted_boxes(s: Seq<GlyphBox>) -> Seq<GlyphBox>
    decreases s.len(),
{
    if s.len() == 0 {
        seq![]
    } else {
        insert_box(s.last(), sorted_boxes(s.drop_last()))
    }
}

pub open spec fn is_sorted(s: Seq<GlyphBox>) -> bool {
    forall|i: int, j: int| 0 <= i < j < s.len() ==> box_precedes(#[trigger] s[i], #[trigger] s[j])
}

proof fn lemma_insert_at(b: GlyphBox, s: Seq<GlyphBox>, j: int)
    requires
        0 <= j <= s.len(),
        forall|k: int| 0 <= k < j ==> !box_precedes(b, #[trigger] s[k]),
        j == s.len() || box_precedes(b, s[j]),
    ensures
        insert_box(b, s) == s.insert(j, b),
    decreases j,
{
    if j == 0 {
        assert(insert_box(b, s) =~= s.insert(0, b));
    } else {
        assert(!box_precedes(b, s[0]));
        let t = s.drop_first();
        assert forall|k: int| 0 <= k < j - 1 implies !box_precedes(b, #[trigger] t[k]) by {
            assert(t[k] == s[k + 1]);
        }
        lemma_insert_at(b, t, j - 1);
        assert(insert_box(b, s) =~= s.insert(j, b));
    }
}

pub proof fn lemma_insert_is_insert(b: GlyphBox, s: Seq<GlyphBox>)
    ensures
        exists|j: int| 0 <= j <= s.len() && insert_box(b, s) == s.insert(j, b),
    decreases s.len(),
{
    if s.len() == 0 {
        assert(insert_box(b, s) =~= s.insert(0, b));
    } else if box_precedes(b, s[0]) {
        assert(insert_box(b, s) =~= s.insert(0, b));
    } else {
        let t = s.drop_first();
        lemma_insert_is_insert(b, t);
        let j = choose|j: int| 0 <= j <= t.len() && insert_box(b, t) == t.insert(j, b);
        assert(insert_box(b, s) =~= s.insert(j + 1, b));
    }
}

proof fn lemma_insert_lower_bound(x: GlyphBox, b: GlyphBox, s: Seq<GlyphBox>)
    requires
        box_precedes(x, b),
        forall|k: int| 0 <= k < s.len() ==> box_precedes(x, #[trigger] s[k]),
    ensures
        forall|k: int|
            0 <= k < insert_box(b, s).len() ==> box_precedes(x, #[trigger] insert_box(b, s)[k]),
{
    lemma_insert_is_insert(b, s);
}

proof fn lemma_insert_sorted(b: GlyphBox, s: Seq<GlyphBox>)
    requires
        is_sorted(s),
    ensures
        is_sorted(insert_box(b, s)),
    decreases s.len(),
{
    if s.len() == 0 {
    } else if box_precedes(b, s[0]) {
        let r = seq![b] + s;
        assert forall|i: int, j: int| 0 <= i < j < r.len() implies box_precedes(
            #[trigger] r[i],
            #[trigger] r[j],
        ) by {
            if i == 0 && j > 1 {
                lemma_precedes_order(b, s[0], s[j - 1]);
            }
        }
    } else {
        let t = s.drop_first();
        lemma_insert_sorted(b, t);
        lemma_precedes_order(b, s[0], b);
        assert forall|k: int| 0 <= k < t.len() implies box_precedes(s[0], #[trigger] t[k]) by {
            assert(t[k] == s[k + 1]);
        }
        lemma_insert_lower_bound(s[0], b, t);
        let r = seq![s[0]] + insert_box(b, t);
        assert forall|i: int, j: int| 0 <= i < j < r.len() implies box_precedes(
            #[trigger] r[i],
            #[trigger] r[j],
        ) by {
            if i > 0 {
                assert(r[i] == insert_box(b, t)[i - 1]);
                assert(r[j] == insert_box(b, t)[j - 1]);
            } else {
                assert(r[j] == insert_box(b, t)[j - 1]);
            }
        }
    }
}

/// The packing order is sorted and holds the same boxes as its input.
pub proof fn lemma_sorted_boxes(s: Seq<GlyphBox>)
    ensures
        is_sorted(sorted_boxes(s)),
        sorted_boxes(s).to_multiset() == s.to_multiset(),
        sorted_boxes(s).len() == s.len(),
    decreases s.len(),
{
    if s.len() > 0 {
        let p = s.drop_last();
        lemma_sorted_boxes(p);
        lemma_insert_sorted(s.last(), sorted_boxes(p));
        lemma_insert_is_insert(s.last(), sorted_boxes(p));
        let j = choose|j: int|
            0 <= j <= sorted_boxes(p).len() && insert_box(s.last(), sorted_boxes(p))
                == sorted_boxes(p).insert(j, s.last());
        assert(s =~= p.push(s.last()));
    }
}

/// Two sorted sequences that hold the same boxes are equal.
pub proof fn lemma_sorted_unique(a: Seq<GlyphBox>, b: Seq<GlyphBox>)
    requires
        is_sorted(a),
        is_sorted(b),
        a.to_multiset() == b.to_multiset(),
    ensures
        a == b,
    decreases a.len(),
{
    a.to_multiset_ensures();
    b.to_multiset_ensures();
    if a.len() == 0 {
        assert(a =~= b);
    } else {
        assert(a.contains(a[0]));
        assert(a.to_multiset().count(a[0]) > 0);
        assert(b.contains(a[0]));
        let j = choose|j: int| 0 <= j < b.len() && b[j] == a[0];
        assert(b.len() == a.len());
        assert(b.contains(b[0]));
        assert(b.to_multiset().count(b[0]) > 0);
        assert(a.contains(b[0]));
        let i = choose|i: int| 0 <= i < a.len() && a[i] == b[0];
        assert(box_precedes(b[0], a[0])) by {
            if j > 0 {
                assert(box_precedes(b[0], b[j]));
            }
        }
        assert(box_precedes(a[0], b[0])) by {
            if i > 0 {
                assert(box_precedes(a[0], a[i]));
            }
        }
        lemma_precedes_order(a[0], b[0], a[0]);
        let ta = a.remove(0);
        let tb = b.remove(0);
        assert(ta =~= a.drop_first());
        assert(tb =~= b.drop_first());
        assert(is_sorted(ta)) by {
            assert forall|i: int, j: int| 0 <= i < j < ta.len() implies box_precedes(
                #[trigger] ta[i],
                #[trigger] ta[j],
            ) by {
                assert(ta[i] == a[i + 1] && ta[j] == a[j + 1]);
            }
        }
        assert(is_sorted(tb)) by {
            assert forall|i: int, j: int| 0 <= i < j < tb.len() implies box_precedes(
                #[trigger] tb[i],
                #[trigger] tb[j],
            ) by {
                assert(tb[i] == b[i + 1] && tb[j] == b[j + 1]);
            }
        }
        lemma_sorted_unique(ta, tb);
        assert(a =~= b) by {
            assert forall|k: int| 0 <= k < a.len() implies a[k] == b[k] by {
                if k > 0 {
                    assert(a[k] == ta[k - 1]);
                    assert(b[k] == tb[k - 1]);
                }
            }
        }
    }
}

/// Sorts the boxes into packing order.
pub fn sort_boxes(boxes: &Vec<GlyphBox>) -> (r: Vec<GlyphBox>)
    ensures
        r@ == sorted_boxes(boxes@),
{
    let mut out: Vec<GlyphBox> = Vec::new();
    let n = boxes.len();
    for i in 0..n
        invariant
            n == boxes@.len(),
            out@ == sorted_boxes(boxes@.subrange(0, i as int)),
    {
        let b = boxes[i];
        let mut j: usize = 0;
        while j < out.len() && !precedes(&b, &out[j])
            invariant
                j <= out@.len(),
                forall|k: int| 0 <= k < j ==> !box_precedes(b, #[trigger] out@[k]),
            decreases out@.len() - j,
        {
            j = j + 1;
        }
        proof {
            lemma_insert_at(b, out@, j as int);
            let s = boxes@.subrange(0, i + 1);
            assert(s.drop_last() =~= boxes@.subrange(0, i as int));
        }
        out.insert(j, b);
    }
    assert(boxes@.subrange(0, n as int) =~= boxes@);
    out
}

/// No two boxes share a character.
pub open spec fn distinct_chars(s: Seq<GlyphBox>) -> bool {
    forall|i: int, j: int|
        0 <= i < s.len() && 0 <= j < s.len() && i != j ==> (#[trigger] s[i]).character != (
        #[trigger] s[j]).character
}

/// Reordering boxes keeps their characters distinct.
pub proof fn lemma_distinct_chars_kept(a: Seq<GlyphBox>, b: Seq<GlyphBox>)
    requires
        distinct_chars(a),
        a.to_multiset() == b.to_multiset(),
    ensures
        distinct_chars(b),
{
    a.to_multiset_ensures();
    b.to_multiset_ensures();
    a.lemma_multiset_has_no_duplicates();
    b.lemma_multiset_has_no_duplicates_conv();
    assert forall|i: int, j: int|
        0 <= i < b.len() && 0 <= j < b.len() && i != j implies (#[trigger] b[i]).character != (
        #[trigger] b[j]).character by {
        assert(b.contains(b[i]) && b.contains(b[j]));
        assert(b.to_multiset().count(b[i]) > 0 && b.to_multiset().count(b[j]) > 0);
        assert(a.contains(b[i]) && a.contains(b[j]));
        let ia = choose|ia: int| 0 <= ia < a.len() && a[ia] == b[i];
        let ja = choose|ja: int| 0 <= ja < a.len() && a[ja] == b[j];
        assert(b[i] != b[j]);
    }
}

} // verus!
