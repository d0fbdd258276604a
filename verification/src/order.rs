//! The order of texts, and sorting by it.
use vstd::prelude::*;
use vstd::relations::total_ordering;

use crate::text;

verus! {

/// Whether `a` stands before `b` in the order of their code points, or equals
/// it. A text stands before those that it begins.
pub open spec fn text_le(a: Seq<char>, b: Seq<char>) -> bool
    decreases a.len(),
{
    if a.len() == 0 {
        true
    } else if b.len() == 0 {
        false
    } else if a[0] != b[0] {
        (a[0] as int) < (b[0] as int)
    } else {
        text_le(a.skip(1), b.skip(1))
    }
}

/// `texts` sorted, with what occurs twice standing there twice.
pub open spec fn in_order(texts: Seq<Seq<char>>) -> Seq<Seq<char>> {
    texts.sort_by(|a: Seq<char>, b: Seq<char>| text_le(a, b))
}

// ---------------------------------------------------------------------------
// Laws
// ---------------------------------------------------------------------------

/// The first place where two texts differ decides, by the code points there; a text
/// stands before what it begins, and not behind.
pub proof fn lemma_first_difference_decides(
    common: Seq<char>,
    a: char,
    b: char,
    after_a: Seq<char>,
    after_b: Seq<char>,
)
    requires
        a != b,
    ensures
        text_le(common + seq![a] + after_a, common + seq![b] + after_b) <==> (a as int) < (b as int),
        text_le(common, common + seq![a] + after_a),
        !text_le(common + seq![a] + after_a, common),
    decreases common.len(),
{
    let x = common + seq![a] + after_a;
    let y = common + seq![b] + after_b;
    if common.len() > 0 {
        let rest = common.skip(1);
        lemma_first_difference_decides(rest, a, b, after_a, after_b);
        assert(x.skip(1) =~= rest + seq![a] + after_a);
        assert(y.skip(1) =~= rest + seq![b] + after_b);
    }
}

/// A text stands before itself.
pub proof fn lemma_le_reflexive(a: Seq<char>)
    ensures
        text_le(a, a),
    decreases a.len(),
{
    if a.len() > 0 {
        lemma_le_reflexive(a.skip(1));
    }
}

/// Of two texts that stand before each other, both are the same.
pub proof fn lemma_le_antisymmetric(a: Seq<char>, b: Seq<char>)
    requires
        text_le(a, b),
        text_le(b, a),
    ensures
        a == b,
    decreases a.len(),
{
    if a.len() == 0 || b.len() == 0 {
        assert(a =~= b);
    } else {
        lemma_le_antisymmetric(a.skip(1), b.skip(1));
        assert(a =~= seq![a[0]] + a.skip(1));
        assert(b =~= seq![b[0]] + b.skip(1));
    }
}

/// The order is transitive.
pub proof fn lemma_le_transitive(a: Seq<char>, b: Seq<char>, c: Seq<char>)
    requires
        text_le(a, b),
        text_le(b, c),
    ensures
        text_le(a, c),
    decreases a.len(),
{
    if a.len() > 0 && b.len() > 0 && c.len() > 0 && a[0] == b[0] && b[0] == c[0] {
        lemma_le_transitive(a.skip(1), b.skip(1), c.skip(1));
    }
}

/// Any two texts can be compared.
pub proof fn lemma_le_total(a: Seq<char>, b: Seq<char>)
    ensures
        text_le(a, b) || text_le(b, a),
    decreases a.len(),
{
    if a.len() > 0 && b.len() > 0 && a[0] == b[0] {
        lemma_le_total(a.skip(1), b.skip(1));
    }
}

/// The order is a total one.
pub proof fn lemma_text_order()
    ensures
        total_ordering(|a: Seq<char>, b: Seq<char>| text_le(a, b)),
{
    let le = |a: Seq<char>, b: Seq<char>| text_le(a, b);
    assert forall|a: Seq<char>| #[trigger] le(a, a) by {
        lemma_le_reflexive(a);
    }
    assert forall|a: Seq<char>, b: Seq<char>| #[trigger] le(a, b) && #[trigger] le(b, a) implies a
        == b by {
        lemma_le_antisymmetric(a, b);
    }
    assert forall|a: Seq<char>, b: Seq<char>, c: Seq<char>| #[trigger]
        le(a, b) && #[trigger] le(b, c) implies le(a, c) by {
        lemma_le_transitive(a, b, c);
    }
    assert forall|a: Seq<char>, b: Seq<char>| #[trigger] le(a, b) || #[trigger] le(b, a) by {
        lemma_le_total(a, b);
    }
}

/// Sorting keeps what is there and puts it in order.
pub proof fn lemma_in_order(texts: Seq<Seq<char>>)
    ensures
        in_order(texts).to_multiset() == texts.to_multiset(),
        in_order(texts).len() == texts.len(),
        forall|i: int, j: int|
            0 <= i < j < texts.len() ==> #[trigger] text_le(in_order(texts)[i], in_order(texts)[j]),
{
    broadcast use vstd::seq_lib::group_to_multiset_ensures;

    let le = |a: Seq<char>, b: Seq<char>| text_le(a, b);
    lemma_text_order();
    texts.lemma_sort_by_ensures(le);
    assert(in_order(texts).to_multiset().len() == texts.to_multiset().len());
    assert forall|i: int, j: int| 0 <= i < j < texts.len() implies #[trigger] text_le(
        in_order(texts)[i],
        in_order(texts)[j],
    ) by {
        assert(le(in_order(texts)[i], in_order(texts)[j]));
    }
}

/// There is one way to put texts in order: how they stood before does not
/// matter.
pub proof fn lemma_order_unique(a: Seq<Seq<char>>, b: Seq<Seq<char>>)
    requires
        a.to_multiset() == b.to_multiset(),
        forall|i: int, j: int| 0 <= i < j < a.len() ==> #[trigger] text_le(a[i], a[j]),
        forall|i: int, j: int| 0 <= i < j < b.len() ==> #[trigger] text_le(b[i], b[j]),
    ensures
        a == b,
    decreases a.len(),
{
    broadcast use vstd::seq_lib::group_to_multiset_ensures;

    assert(a.len() == a.to_multiset().len());
    assert(b.len() == b.to_multiset().len());
    if a.len() == 0 {
        assert(a =~= b);
    } else {
        assert(b.contains(a[0])) by {
            assert(a.contains(a[0]));
            assert(a.to_multiset().count(a[0]) > 0);
        }
        assert(a.contains(b[0])) by {
            assert(b.contains(b[0]));
            assert(b.to_multiset().count(b[0]) > 0);
        }
        let i = choose|i: int| 0 <= i < a.len() && a[i] == b[0];
        let j = choose|j: int| 0 <= j < b.len() && b[j] == a[0];
        if i > 0 && j > 0 {
            assert(text_le(a[0], a[i]));
            assert(text_le(b[0], b[j]));
            lemma_le_antisymmetric(a[0], b[0]);
        }
        assert(a[0] == b[0]);
        assert(a.remove(0).to_multiset() == b.remove(0).to_multiset());
        lemma_order_unique(a.remove(0), b.remove(0));
        assert(a =~= seq![a[0]] + a.remove(0));
        assert(b =~= seq![b[0]] + b.remove(0));
    }
}

// ---------------------------------------------------------------------------
// Sorting
// ---------------------------------------------------------------------------

spec fn contents(texts: Seq<Vec<char>>) -> Seq<Seq<char>> {
    texts.map_values(|text: Vec<char>| text@)
}

fn stands_before(a: &[char], b: &[char]) -> (yes: bool)
    ensures
        yes == text_le(a@, b@),
{
    let mut i: usize = 0;
    assert(a@.skip(0) =~= a@);
    assert(b@.skip(0) =~= b@);
    while i < a.len() && i < b.len()
        invariant
            i <= a@.len(),
            i <= b@.len(),
            text_le(a@, b@) == text_le(a@.skip(i as int), b@.skip(i as int)),
        decreases a@.len() - i,
    {
        let x: char = a[i];
        let y: char = b[i];
        if x != y {
            return x < y;
        }
        assert(a@.skip(i as int).skip(1) =~= a@.skip(i + 1));
        assert(b@.skip(i as int).skip(1) =~= b@.skip(i + 1));
        i = i + 1;
    }
    i == a.len()
}

/// Where to put `text` so that the sorted `texts` stay sorted: behind all that
/// stand before it.
fn place_for(texts: &Vec<Vec<char>>, text: &[char]) -> (place: usize)
    requires
        forall|i: int, j: int|
            0 <= i < j < texts@.len() ==> #[trigger] text_le(texts@[i]@, texts@[j]@),
    ensures
        place <= texts@.len(),
        forall|i: int| 0 <= i < place ==> text_le(#[trigger] texts@[i]@, text@),
        forall|i: int| place <= i < texts@.len() ==> text_le(text@, #[trigger] texts@[i]@),
{
    let mut low: usize = 0;
    let mut high: usize = texts.len();
    while low < high
        invariant
            low <= high <= texts@.len(),
            forall|i: int, j: int|
                0 <= i < j < texts@.len() ==> #[trigger] text_le(texts@[i]@, texts@[j]@),
            forall|i: int| 0 <= i < low ==> text_le(#[trigger] texts@[i]@, text@),
            forall|i: int| high <= i < texts@.len() ==> text_le(text@, #[trigger] texts@[i]@),
        decreases high - low,
    {
        let middle: usize = low + (high - low) / 2;
        if stands_before(texts[middle].as_slice(), text) {
            assert forall|i: int| 0 <= i < middle + 1 implies text_le(
                #[trigger] texts@[i]@,
                text@,
            ) by {
                if i < middle {
                    lemma_le_transitive(texts@[i]@, texts@[middle as int]@, text@);
                }
            }
            low = middle + 1;
        } else {
            assert forall|i: int| middle <= i < texts@.len() implies text_le(
                text@,
                #[trigger] texts@[i]@,
            ) by {
                lemma_le_total(text@, texts@[middle as int]@);
                if i > middle {
                    lemma_le_transitive(text@, texts@[middle as int]@, texts@[i]@);
                }
            }
            high = middle;
        }
    }
    low
}

/// Sorts `texts`.
pub fn sort_texts(texts: &Vec<String>) -> (sorted: Vec<String>)
    ensures
        sorted.deep_view() == in_order(texts.deep_view()),
{
    broadcast use vstd::seq_lib::group_to_multiset_ensures;

    let ghost model = texts.deep_view();
    let mut placed: Vec<Vec<char>> = Vec::new();
    assert(contents(placed@) =~= model.take(0));
    for k in 0..texts.len()
        invariant
            model == texts.deep_view(),
            contents(placed@).to_multiset() == model.take(k as int).to_multiset(),
            forall|i: int, j: int|
                0 <= i < j < placed@.len() ==> #[trigger] text_le(placed@[i]@, placed@[j]@),
    {
        let text = text::chars_of(texts[k].as_str());
        let place: usize = place_for(&placed, text.as_slice());
        let ghost before = placed@;
        let ghost before_model = contents(placed@);
        placed.insert(place, text);
        assert(text@ == model[k as int]);
        assert(contents(placed@) =~= before_model.insert(place as int, model[k as int]));
        proof {
            vstd::seq_lib::to_multiset_insert(before_model, place as int, model[k as int]);
            vstd::seq_lib::to_multiset_build(model.take(k as int), model[k as int]);
            assert(model.take(k + 1) =~= model.take(k as int).push(model[k as int]));
        }
        assert forall|i: int, j: int| 0 <= i < j < placed@.len() implies #[trigger] text_le(
            placed@[i]@,
            placed@[j]@,
        ) by {
            let from_i = if i < place {
                before[i]
            } else {
                before[i - 1]
            };
            let from_j = if j < place {
                before[j]
            } else {
                before[j - 1]
            };
            if i == place {
                assert(placed@[j] == from_j);
            } else if j == place {
                assert(placed@[i] == from_i);
            } else {
                assert(placed@[i] == from_i && placed@[j] == from_j);
                assert(text_le(from_i@, from_j@));
            }
        }
    }
    assert(model.take(texts@.len() as int) =~= model);
    let mut sorted: Vec<String> = Vec::new();
    let ghost order = contents(placed@);
    assert(sorted.deep_view() =~= order.take(0));
    for k in 0..placed.len()
        invariant
            order == contents(placed@),
            sorted.deep_view() == order.take(k as int),
    {
        let ghost before = sorted.deep_view();
        let text = text::string_of(placed[k].as_slice());
        assert(text@ == order[k as int]);
        sorted.push(text);
        assert(sorted.deep_view() =~= before.push(order[k as int]));
        assert(sorted.deep_view() =~= order.take(k + 1));
    }
    assert(order.take(placed@.len() as int) =~= order);
    proof {
        lemma_in_order(model);
        assert forall|i: int, j: int| 0 <= i < j < order.len() implies #[trigger] text_le(
            order[i],
            order[j],
        ) by {
            assert(text_le(placed@[i]@, placed@[j]@));
        }
        lemma_order_unique(order, in_order(model));
    }
    sorted
}

} // verus!
