//! Orders of keys, and the merge of three of them.

use vstd::prelude::*;

use crate::text;

verus! {

/// Membership in a list.
pub open spec fn within(a: Seq<Seq<char>>) -> spec_fn(Seq<char>) -> bool {
    |k: Seq<char>| a.contains(k)
}

/// The keys of `list` that `a` holds, in the order of `list`.
pub open spec fn kept(list: Seq<Seq<char>>, a: Seq<Seq<char>>) -> Seq<Seq<char>> {
    list.filter(within(a))
}

/// `list` followed by the keys of `more` that are not there yet.
pub open spec fn extended(list: Seq<Seq<char>>, more: Seq<Seq<char>>) -> Seq<Seq<char>>
    decreases more.len(),
{
    if more.len() == 0 {
        list
    } else {
        let head = extended(list, more.drop_last());
        if head.contains(more.last()) {
            head
        } else {
            head.push(more.last())
        }
    }
}

/// The keys that all three sides have, in the order of the base.
pub open spec fn shared(
    base: Seq<Seq<char>>,
    ours: Seq<Seq<char>>,
    theirs: Seq<Seq<char>>,
) -> Seq<Seq<char>> {
    kept(kept(base, ours), theirs)
}

/// The side whose order of the shared keys is taken; `None` where both sides
/// changed it differently. `true` stands for our side.
pub open spec fn leading_side(
    base: Seq<Seq<char>>,
    ours: Seq<Seq<char>>,
    theirs: Seq<Seq<char>>,
) -> Option<bool> {
    let common = shared(base, ours, theirs);
    if kept(ours, common) == kept(theirs, common) {
        Some(true)
    } else if kept(ours, common) == kept(base, common) {
        Some(false)
    } else if kept(theirs, common) == kept(base, common) {
        Some(true)
    } else {
        None
    }
}

/// All keys of three sides, led by one of them.
pub open spec fn all_keys(
    base: Seq<Seq<char>>,
    ours: Seq<Seq<char>>,
    theirs: Seq<Seq<char>>,
    ours_lead: bool,
) -> Seq<Seq<char>> {
    if ours_lead {
        extended(extended(extended(Seq::empty(), ours), theirs), base)
    } else {
        extended(extended(extended(Seq::empty(), theirs), ours), base)
    }
}

pub proof fn lemma_kept_step(list: Seq<Seq<char>>, a: Seq<Seq<char>>, i: int)
    requires
        0 <= i < list.len(),
    ensures
        kept(list.take(i + 1), a) == if a.contains(list[i]) {
            kept(list.take(i), a).push(list[i])
        } else {
            kept(list.take(i), a)
        },
{
    reveal(Seq::filter);
    assert(list.take(i + 1).drop_last() =~= list.take(i));
}

/// Filtering by a list that holds every key changes nothing.
pub proof fn lemma_kept_all(list: Seq<Seq<char>>, a: Seq<Seq<char>>)
    requires
        forall|i: int| 0 <= i < list.len() ==> a.contains(#[trigger] list[i]),
    ensures
        kept(list, a) == list,
    decreases list.len(),
{
    reveal(Seq::filter);
    if list.len() > 0 {
        let head = list.drop_last();
        assert forall|i: int| 0 <= i < head.len() implies a.contains(#[trigger] head[i]) by {
            assert(head[i] == list[i]);
        }
        lemma_kept_all(head, a);
        assert(list =~= head.push(list.last()));
    }
}

pub proof fn lemma_extended(list: Seq<Seq<char>>, more: Seq<Seq<char>>)
    requires
        list.no_duplicates(),
    ensures
        extended(list, more).no_duplicates(),
        forall|k: Seq<char>|
            #[trigger] extended(list, more).contains(k) <==> list.contains(k) || more.contains(k),
    decreases more.len(),
{
    if more.len() > 0 {
        let head = extended(list, more.drop_last());
        let x = more.last();
        lemma_extended(list, more.drop_last());
        assert forall|k: Seq<char>|
            #[trigger] extended(list, more).contains(k) <==> list.contains(k) || more.contains(k) by {
            assert(more =~= more.drop_last().push(x));
            if more.contains(k) && k != x {
                let i = choose|i: int| 0 <= i < more.len() && more[i] == k;
                assert(more.drop_last()[i] == k);
            }
            if more.drop_last().contains(k) {
                let i = choose|i: int|
                    0 <= i < more.drop_last().len() && more.drop_last()[i] == k;
                assert(more[i] == k);
            }
            assert(more[more.len() - 1] == x);
            if head.contains(k) {
                let i = choose|i: int| 0 <= i < head.len() && head[i] == k;
                assert(head.push(x)[i] == k);
            }
            assert(head.push(x)[head.len() as int] == x);
            if head.push(x).contains(k) && k != x {
                let i = choose|i: int| 0 <= i < head.push(x).len() && head.push(x)[i] == k;
                assert(head[i] == k);
            }
        }
    } else {
        assert(!more.contains(arbitrary()) || more.len() > 0);
        assert forall|k: Seq<char>|
            #[trigger] extended(list, more).contains(k) <==> list.contains(k) || more.contains(k) by {
            assert(!more.contains(k));
        }
    }
}

/// The merged order holds every key of each side, once.
pub proof fn lemma_all_keys(
    base: Seq<Seq<char>>,
    ours: Seq<Seq<char>>,
    theirs: Seq<Seq<char>>,
    ours_lead: bool,
)
    ensures
        all_keys(base, ours, theirs, ours_lead).no_duplicates(),
        forall|k: Seq<char>|
            #[trigger] all_keys(base, ours, theirs, ours_lead).contains(k) <==> base.contains(k)
                || ours.contains(k) || theirs.contains(k),
{
    let none = Seq::<Seq<char>>::empty();
    let (first, second) = if ours_lead {
        (ours, theirs)
    } else {
        (theirs, ours)
    };
    lemma_extended(none, first);
    lemma_extended(extended(none, first), second);
    lemma_extended(extended(extended(none, first), second), base);
    assert forall|k: Seq<char>| !none.contains(k) by {}
}

pub fn keep(list: &Vec<String>, a: &Vec<String>) -> (r: Vec<String>)
    ensures
        text::texts(r@) == kept(text::texts(list@), text::texts(a@)),
{
    let ghost l = text::texts(list@);
    let mut out: Vec<String> = Vec::new();
    let mut i: usize = 0;
    proof {
        reveal(Seq::filter);
        assert(text::texts(out@) =~= kept(l.take(0), text::texts(a@)));
    }
    while i < list.len()
        invariant
            l == text::texts(list@),
            i <= list.len(),
            text::texts(out@) == kept(l.take(i as int), text::texts(a@)),
        decreases list.len() - i,
    {
        proof {
            lemma_kept_step(l, text::texts(a@), i as int);
        }
        if text::contains_text(a.as_slice(), list[i].as_str()) {
            let ghost before = out@;
            out.push(list[i].clone());
            assert(text::texts(out@) =~= text::texts(before).push(l[i as int]));
        }
        i = i + 1;
    }
    assert(l.take(i as int) =~= l);
    out
}

pub fn extend(list: Vec<String>, more: &Vec<String>) -> (r: Vec<String>)
    ensures
        text::texts(r@) == extended(text::texts(list@), text::texts(more@)),
{
    let ghost m = text::texts(more@);
    let ghost start = text::texts(list@);
    let mut out: Vec<String> = list;
    let mut i: usize = 0;
    while i < more.len()
        invariant
            m == text::texts(more@),
            i <= more.len(),
            text::texts(out@) == extended(start, m.take(i as int)),
        decreases more.len() - i,
    {
        assert(m.take(i + 1).drop_last() =~= m.take(i as int));
        if !text::contains_text(out.as_slice(), more[i].as_str()) {
            let ghost before = out@;
            out.push(more[i].clone());
            assert(text::texts(out@) =~= text::texts(before).push(m[i as int]));
        }
        i = i + 1;
    }
    assert(m.take(i as int) =~= m);
    out
}

/// Merges the orders of three sides. Where both sides reordered the shared keys
/// differently there is no leading side, and ours is taken for the order.
pub fn merged_order(base: &Vec<String>, ours: &Vec<String>, theirs: &Vec<String>) -> (r: (
    Vec<String>,
    bool,
))
    ensures
        ({
            let (b, o, t) = (text::texts(base@), text::texts(ours@), text::texts(theirs@));
            &&& r.1 == (leading_side(b, o, t) is None)
            &&& text::texts(r.0@) == all_keys(b, o, t, leading_side(b, o, t) != Some(false))
        }),
{
    let common = keep(&keep(base, ours), theirs);
    let in_base = keep(base, &common);
    let in_ours = keep(ours, &common);
    let in_theirs = keep(theirs, &common);
    let (ours_lead, clash) = if text::eq_texts(in_ours.as_slice(), in_theirs.as_slice()) {
        (true, false)
    } else if text::eq_texts(in_ours.as_slice(), in_base.as_slice()) {
        (false, false)
    } else if text::eq_texts(in_theirs.as_slice(), in_base.as_slice()) {
        (true, false)
    } else {
        (true, true)
    };
    let empty: Vec<String> = Vec::new();
    assert(text::texts(empty@) =~= Seq::<Seq<char>>::empty());
    let keys = if ours_lead {
        extend(extend(extend(empty, ours), theirs), base)
    } else {
        extend(extend(extend(empty, theirs), ours), base)
    };
    (keys, clash)
}

/// The keys of a list that all three sides have, in the order of the list.
pub open spec fn common_order(
    list: Seq<Seq<char>>,
    base: Seq<Seq<char>>,
    ours: Seq<Seq<char>>,
    theirs: Seq<Seq<char>>,
) -> Seq<Seq<char>> {
    list.filter(|k: Seq<char>| base.contains(k) && ours.contains(k) && theirs.contains(k))
}

proof fn lemma_same_filter(
    list: Seq<Seq<char>>,
    p: spec_fn(Seq<char>) -> bool,
    q: spec_fn(Seq<char>) -> bool,
)
    requires
        forall|k: Seq<char>| #[trigger] p(k) == q(k),
    ensures
        list.filter(p) == list.filter(q),
    decreases list.len(),
{
    reveal(Seq::filter);
    if list.len() > 0 {
        lemma_same_filter(list.drop_last(), p, q);
        assert(p(list.last()) == q(list.last()));
    }
}

proof fn lemma_kept_holds(list: Seq<Seq<char>>, a: Seq<Seq<char>>, k: Seq<char>)
    ensures
        kept(list, a).contains(k) <==> list.contains(k) && a.contains(k),
{
    let p = within(a);
    if kept(list, a).contains(k) {
        let i = choose|i: int| 0 <= i < list.filter(p).len() && list.filter(p)[i] == k;
        list.lemma_filter_pred(p, i);
        list.lemma_filter_contains_rev(p, k);
    }
    if list.contains(k) && a.contains(k) {
        let i = choose|i: int| 0 <= i < list.len() && list[i] == k;
        assert(p(list[i]));
        list.lemma_filter_contains(p, i);
    }
}

/// Law: the order of a merge follows the side that changed the order of the keys that all
/// have. Where both have them in one order, or theirs has them as the base has, ours leads;
/// where ours has them as the base has, theirs leads; and where both changed the order
/// differently none does.
pub proof fn law_order_follows_the_side_that_changed_it(
    base: Seq<Seq<char>>,
    ours: Seq<Seq<char>>,
    theirs: Seq<Seq<char>>,
)
    ensures
        ({
            let b = common_order(base, base, ours, theirs);
            let o = common_order(ours, base, ours, theirs);
            let t = common_order(theirs, base, ours, theirs);
            &&& leading_side(base, ours, theirs) == Some(true) <==> o == t || (t == b && o != b)
            &&& leading_side(base, ours, theirs) == Some(false) <==> o == b && o != t
            &&& leading_side(base, ours, theirs) is None <==> o != t && o != b && t != b
        }),
{
    let common = shared(base, ours, theirs);
    let p = within(common);
    let q = |k: Seq<char>| base.contains(k) && ours.contains(k) && theirs.contains(k);
    assert forall|k: Seq<char>| #[trigger] p(k) == q(k) by {
        lemma_kept_holds(kept(base, ours), theirs, k);
        lemma_kept_holds(base, ours, k);
    }
    lemma_same_filter(base, p, q);
    lemma_same_filter(ours, p, q);
    lemma_same_filter(theirs, p, q);
}

proof fn lemma_extended_prefix(list: Seq<Seq<char>>, more: Seq<Seq<char>>)
    ensures
        list.is_prefix_of(extended(list, more)),
    decreases more.len(),
{
    if more.len() > 0 {
        lemma_extended_prefix(list, more.drop_last());
        let head = extended(list, more.drop_last());
        assert forall|i: int| 0 <= i < list.len() implies list[i] == extended(list, more)[i] by {
            assert(list[i] == head[i]);
        }
    }
}

proof fn lemma_extended_from_nothing(more: Seq<Seq<char>>)
    requires
        more.no_duplicates(),
    ensures
        extended(Seq::empty(), more) == more,
    decreases more.len(),
{
    if more.len() > 0 {
        let head = more.drop_last();
        assert forall|i: int, j: int| 0 <= i < head.len() && 0 <= j < head.len() && i
            != j implies head[i] != head[j] by {
            assert(more[i] != more[j]);
        }
        lemma_extended_from_nothing(head);
        if head.contains(more.last()) {
            let i = choose|i: int| 0 <= i < head.len() && head[i] == more.last();
            assert(more[i] == more[more.len() - 1]);
        }
        assert(head.push(more.last()) =~= more);
    } else {
        assert(extended(Seq::empty(), more) =~= more);
    }
}

/// Law: the keys of the side that leads come first and keep their order.
pub proof fn law_the_leading_side_comes_first(
    base: Seq<Seq<char>>,
    ours: Seq<Seq<char>>,
    theirs: Seq<Seq<char>>,
)
    requires
        ours.no_duplicates(),
        theirs.no_duplicates(),
    ensures
        ours.is_prefix_of(all_keys(base, ours, theirs, true)),
        theirs.is_prefix_of(all_keys(base, ours, theirs, false)),
{
    lemma_extended_from_nothing(ours);
    lemma_extended_prefix(ours, theirs);
    lemma_extended_prefix(extended(ours, theirs), base);
    lemma_extended_from_nothing(theirs);
    lemma_extended_prefix(theirs, ours);
    lemma_extended_prefix(extended(theirs, ours), base);
    let a = extended(ours, theirs);
    let all = all_keys(base, ours, theirs, true);
    assert forall|i: int| 0 <= i < ours.len() implies ours[i] == all[i] by {
        assert(ours[i] == a[i]);
        assert(a[i] == all[i]);
    }
    let c = extended(theirs, ours);
    let others = all_keys(base, ours, theirs, false);
    assert forall|i: int| 0 <= i < theirs.len() implies theirs[i] == others[i] by {
        assert(theirs[i] == c[i]);
        assert(c[i] == others[i]);
    }
}

} // verus!
