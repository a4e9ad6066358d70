//! Lists of texts in order and without repetition.
use crate::text::{chars_of, texts};
use vstd::prelude::*;

verus! {

/// Whether `a` comes before `b`: by the first character in which they differ, or
/// because it is the shorter of the two.
pub open spec fn text_less(a: Seq<char>, b: Seq<char>) -> bool
    decreases a.len(),
{
    if b.len() == 0 {
        false
    } else if a.len() == 0 {
        true
    } else if a[0] == b[0] {
        text_less(a.skip(1), b.skip(1))
    } else {
        a[0] < b[0]
    }
}

/// Whether the texts are in order, each before all that follow it.
pub open spec fn in_text_order(list: Seq<Seq<char>>) -> bool {
    forall|i: int, j: int|
        0 <= i < j < list.len() ==> text_less(#[trigger] list[i], #[trigger] list[j])
}

/// Whether the list holds exactly these texts, in order and each once.
pub open spec fn lists(list: Seq<Seq<char>>, set: Set<Seq<char>>) -> bool {
    in_text_order(list) && list.to_set() == set
}

pub proof fn lemma_less_irreflexive(a: Seq<char>)
    ensures
        !text_less(a, a),
    decreases a.len(),
{
    if a.len() > 0 {
        lemma_less_irreflexive(a.skip(1));
    }
}

pub proof fn lemma_less_transitive(a: Seq<char>, b: Seq<char>, c: Seq<char>)
    requires
        text_less(a, b),
        text_less(b, c),
    ensures
        text_less(a, c),
    decreases a.len(),
{
    if a.len() > 0 && a[0] == b[0] && b[0] == c[0] {
        lemma_less_transitive(a.skip(1), b.skip(1), c.skip(1));
    }
}

pub proof fn lemma_less_total(a: Seq<char>, b: Seq<char>)
    ensures
        text_less(a, b) || text_less(b, a) || a == b,
    decreases a.len(),
{
    if a.len() > 0 && b.len() > 0 && a[0] == b[0] {
        lemma_less_total(a.skip(1), b.skip(1));
        if a.skip(1) == b.skip(1) {
            assert forall|i: int| 0 <= i < a.len() implies a[i] == b[i] by {
                if i > 0 {
                    assert(a[i] == a.skip(1)[i - 1]);
                    assert(b[i] == b.skip(1)[i - 1]);
                }
            }
            assert(a.len() == b.len());
            assert(a =~= b);
        }
    } else if a.len() == 0 && b.len() == 0 {
        assert(a =~= b);
    }
}

/// A set of texts has only one list: the order and the absence of repetition
/// leave no choice.
pub proof fn law_list_is_unique(a: Seq<Seq<char>>, b: Seq<Seq<char>>, set: Set<Seq<char>>)
    requires
        lists(a, set),
        lists(b, set),
    ensures
        a == b,
    decreases a.len(),
{
    if a.len() == 0 {
        if b.len() > 0 {
            assert(b.to_set().contains(b[0]));
            assert(a.to_set().contains(b[0]));
        }
        assert(a =~= b);
    } else {
        assert(a.to_set().contains(a[0]));
        assert(b.to_set().contains(a[0]));
        let j = choose|j: int| 0 <= j < b.len() && b[j] == a[0];
        assert(b.to_set().contains(b[0]));
        assert(a.to_set().contains(b[0]));
        let i = choose|i: int| 0 <= i < a.len() && a[i] == b[0];
        if i > 0 {
            assert(text_less(a[0], a[i]));
            if j > 0 {
                assert(text_less(b[0], b[j]));
                lemma_less_transitive(a[0], b[0], a[0]);
            }
            lemma_less_irreflexive(a[0]);
        }
        assert(a[0] == b[0]);
        let x = a.skip(1);
        let y = b.skip(1);
        lemma_rest_lists(a, set);
        lemma_rest_lists(b, set);
        law_list_is_unique(x, y, set.remove(a[0]));
        assert(a =~= seq![a[0]] + x);
        assert(b =~= seq![b[0]] + y);
    }
}

proof fn lemma_rest_lists(a: Seq<Seq<char>>, set: Set<Seq<char>>)
    requires
        lists(a, set),
        a.len() > 0,
    ensures
        lists(a.skip(1), set.remove(a[0])),
{
    let rest = a.skip(1);
    assert forall|i: int, j: int| 0 <= i < j < rest.len() implies text_less(
        #[trigger] rest[i],
        #[trigger] rest[j],
    ) by {
        assert(rest[i] == a[i + 1]);
        assert(rest[j] == a[j + 1]);
    }
    assert forall|t: Seq<char>| rest.to_set().contains(t) == set.remove(a[0]).contains(t) by {
        if rest.to_set().contains(t) {
            let i = choose|i: int| 0 <= i < rest.len() && rest[i] == t;
            assert(a[i + 1] == t);
            assert(a.to_set().contains(t));
            assert(text_less(a[0], a[i + 1]));
            lemma_less_irreflexive(t);
        }
        if set.remove(a[0]).contains(t) {
            assert(a.to_set().contains(t));
            let i = choose|i: int| 0 <= i < a.len() && a[i] == t;
            assert(rest[i - 1] == t);
        }
    }
    assert(rest.to_set() =~= set.remove(a[0]));
}

/// Whether `a` comes before `b`.
fn is_less(a: &[char], b: &[char]) -> (r: bool)
    ensures
        r == text_less(a@, b@),
{
    let mut i: usize = 0;
    assert(a@.skip(0) == a@);
    assert(b@.skip(0) == b@);
    loop
        invariant
            i <= a@.len(),
            i <= b@.len(),
            text_less(a@, b@) == text_less(a@.skip(i as int), b@.skip(i as int)),
        decreases a@.len() - i,
    {
        if i >= b.len() {
            return false;
        }
        if i >= a.len() {
            return true;
        }
        if a[i] != b[i] {
            return a[i] < b[i];
        }
        assert(a@.skip(i as int).skip(1) == a@.skip(i + 1));
        assert(b@.skip(i as int).skip(1) == b@.skip(i + 1));
        i = i + 1;
    }
}

/// Adds a text to a list that is in order, unless it is there.
pub fn insert_text(list: &mut Vec<String>, item: String)
    requires
        in_text_order(texts(old(list)@)),
    ensures
        in_text_order(texts(final(list)@)),
        texts(final(list)@).to_set() == texts(old(list)@).to_set().insert(item@),
{
    let ghost before = texts(list@);
    let chars = chars_of(item.as_str());
    let mut i: usize = 0;
    while i < list.len()
        invariant
            i <= list@.len(),
            list@ == old(list)@,
            before == texts(list@),
            in_text_order(before),
            chars@ == item@,
            forall|j: int| 0 <= j < i ==> text_less(#[trigger] before[j], item@),
        decreases list@.len() - i,
    {
        let other = chars_of(list[i].as_str());
        assert(before[i as int] == other@);
        if is_less(other.as_slice(), chars.as_slice()) {
            i = i + 1;
        } else if is_less(chars.as_slice(), other.as_slice()) {
            proof {
                lemma_insert(before, i as int, item@);
            }
            list.insert(i, item);
            assert(texts(list@) =~= before.insert(i as int, item@));
            return ;
        } else {
            proof {
                lemma_less_total(before[i as int], item@);
                assert(before.to_set().contains(item@));
                assert(before.to_set() =~= before.to_set().insert(item@));
            }
            return ;
        }
    }
    proof {
        lemma_insert(before, i as int, item@);
    }
    list.push(item);
    assert(texts(list@) =~= before.insert(i as int, item@));
}

proof fn lemma_insert(list: Seq<Seq<char>>, i: int, item: Seq<char>)
    requires
        in_text_order(list),
        0 <= i <= list.len(),
        forall|j: int| 0 <= j < i ==> text_less(#[trigger] list[j], item),
        i < list.len() ==> text_less(item, list[i]),
    ensures
        in_text_order(list.insert(i, item)),
        list.insert(i, item).to_set() == list.to_set().insert(item),
{
    let after = list.insert(i, item);
    assert forall|a: int, b: int| 0 <= a < b < after.len() implies text_less(
        #[trigger] after[a],
        #[trigger] after[b],
    ) by {
        if a == i {
            if b - 1 > i {
                assert(text_less(list[i], list[b - 1]));
                lemma_less_transitive(item, list[i], list[b - 1]);
            }
        } else if b == i {
            assert(after[a] == list[a]);
        } else {
            let x = if a < i {
                a
            } else {
                a - 1
            };
            let y = if b < i {
                b
            } else {
                b - 1
            };
            assert(text_less(list[x], list[y]));
        }
    }
    assert forall|t: Seq<char>| after.to_set().contains(t) == list.to_set().insert(item).contains(
        t,
    ) by {
        if after.to_set().contains(t) {
            let k = choose|k: int| 0 <= k < after.len() && after[k] == t;
            if k < i {
                assert(list[k] == t);
                assert(list.to_set().contains(t));
            } else if k > i {
                assert(list[k - 1] == t);
                assert(list.to_set().contains(t));
            }
        }
        if t == item {
            assert(after[i] == t);
            assert(after.to_set().contains(t));
        } else if list.to_set().contains(t) {
            let k = choose|k: int| 0 <= k < list.len() && list[k] == t;
            if k < i {
                assert(after[k] == t);
            } else {
                assert(after[k + 1] == t);
            }
            assert(after.to_set().contains(t));
        }
    }
    assert(after.to_set() =~= list.to_set().insert(item));
}

// ---------------------------------------------------------------------------
// Laws
// ---------------------------------------------------------------------------
/// Texts are in order by the first character in which they differ, and a text comes after
/// its own beginnings.
pub proof fn law_order_of_texts(common: Seq<char>, a: Seq<char>, b: Seq<char>)
    requires
        a.len() > 0 && b.len() > 0 ==> a[0] != b[0],
    ensures
        text_less(common + a, common + b) <==> b.len() > 0 && (a.len() == 0 || a[0] < b[0]),
    decreases common.len(),
{
    let x = common + a;
    let y = common + b;
    if common.len() == 0 {
        assert(x =~= a);
        assert(y =~= b);
    } else {
        assert(x[0] == common[0] && y[0] == common[0]);
        assert(x.skip(1) =~= common.skip(1) + a);
        assert(y.skip(1) =~= common.skip(1) + b);
        law_order_of_texts(common.skip(1), a, b);
    }
}

/// A list in order names each of its texts once.
pub proof fn law_listed_texts_are_distinct(list: Seq<Seq<char>>, set: Set<Seq<char>>)
    requires
        lists(list, set),
    ensures
        list.no_duplicates(),
        forall|text: Seq<char>| set.contains(text) <==> #[trigger] list.contains(text),
{
    assert forall|i: int, j: int| 0 <= i < list.len() && 0 <= j < list.len() && i != j implies list[i]
        != list[j] by {
        lemma_less_irreflexive(list[i]);
        if i < j {
            assert(text_less(list[i], list[j]));
        } else {
            assert(text_less(list[j], list[i]));
        }
    }
    assert forall|text: Seq<char>| set.contains(text) <==> #[trigger] list.contains(text) by {
        assert(list.to_set().contains(text) <==> list.contains(text));
    }
}

} // verus!
