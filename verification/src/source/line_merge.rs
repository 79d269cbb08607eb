//! Three-way merge of texts by lines.

use similar::{DiffTag, TextDiff};
use vstd::prelude::*;

use crate::segment;
use crate::text;

verus! {

/// A step of a line diff: whether both sides agree on it, its range of lines of
/// the old text, and its range of lines of the new one.
pub type LineStep = (bool, usize, usize, usize, usize);

/// The steps of the line diff between two texts.
pub uninterp spec fn line_diff(old: Seq<char>, new: Seq<char>) -> Seq<LineStep>;

/// `similar::TextDiff::from_lines` and its operations.
#[verifier::external_body]
fn line_steps(old_text: &str, new_text: &str) -> (r: Vec<LineStep>)
    ensures
        r@ == line_diff(old_text@, new_text@),
{
    TextDiff::from_lines(old_text, new_text)
        .ops()
        .iter()
        .map(|step| {
            let (before, after) = (step.old_range(), step.new_range());
            (step.tag() == DiffTag::Equal, before.start, before.end, after.start, after.end)
        })
        .collect()
}

/// Lines of the base that one side replaced, and what it put for them.
pub struct HunkModel {
    pub start: int,
    pub end: int,
    pub replacement: Seq<char>,
}

pub struct Hunk {
    pub start: usize,
    pub end: usize,
    pub replacement: Vec<char>,
}

impl View for Hunk {
    type V = HunkModel;

    open spec fn view(&self) -> HunkModel {
        HunkModel { start: self.start as int, end: self.end as int, replacement: self.replacement@ }
    }
}

pub open spec fn hunks_of(v: Seq<Hunk>) -> Seq<HunkModel> {
    v.map_values(|h: Hunk| h@)
}

/// The changed steps of a diff as hunks; `None` where a step points outside the
/// lines of the new text.
pub open spec fn side_hunks(steps: Seq<LineStep>, lines: Seq<Seq<char>>) -> Option<Seq<HunkModel>>
    decreases steps.len(),
{
    if steps.len() == 0 {
        Some(Seq::empty())
    } else {
        let (equal, start, end, from, to) = steps.last();
        match side_hunks(steps.drop_last(), lines) {
            None => None,
            Some(head) => if equal {
                Some(head)
            } else if from <= to <= lines.len() {
                Some(
                    head.push(
                        HunkModel {
                            start: start as int,
                            end: end as int,
                            replacement: segment::concat(
                                lines.subrange(from as int, to as int),
                            ),
                        },
                    ),
                )
            } else {
                None
            },
        }
    }
}

/// Two hunks touch the same place of the base.
pub open spec fn overlap(a: HunkModel, b: HunkModel) -> bool {
    if a.start == a.end && b.start == b.end {
        a.start == b.start
    } else {
        ||| a.start < b.end && b.start < a.end
        ||| a.start == b.start
        ||| a.end == b.end && a.start != a.end && b.start != b.end
    }
}

/// The first hunk of a list that overlaps another one.
pub open spec fn first_overlap(list: Seq<HunkModel>, h: HunkModel) -> Option<HunkModel>
    decreases list.len(),
{
    if list.len() == 0 {
        None
    } else if overlap(list[0], h) {
        Some(list[0])
    } else {
        first_overlap(list.skip(1), h)
    }
}

/// Our hunks and then those of their hunks that ours leave room for; `None`
/// where two overlap and differ.
pub open spec fn combined(ours: Seq<HunkModel>, theirs: Seq<HunkModel>) -> Option<Seq<HunkModel>>
    decreases theirs.len(),
{
    if theirs.len() == 0 {
        Some(ours)
    } else {
        match combined(ours, theirs.drop_last()) {
            None => None,
            Some(list) => match first_overlap(list, theirs.last()) {
                Some(found) => if found == theirs.last() {
                    Some(list)
                } else {
                    None
                },
                None => Some(list.push(theirs.last())),
            },
        }
    }
}

/// The order in which hunks are applied.
pub open spec fn comes_after(a: HunkModel, b: HunkModel) -> bool {
    a.start > b.start || a.start == b.start && a.end > b.end
}

/// A hunk put behind the last one that it does not come before.
pub open spec fn inserted(list: Seq<HunkModel>, h: HunkModel) -> Seq<HunkModel>
    decreases list.len(),
{
    if list.len() > 0 && comes_after(list.last(), h) {
        inserted(list.drop_last(), h).push(list.last())
    } else {
        list.push(h)
    }
}

/// The hunks in order; equals keep their order.
pub open spec fn sorted(list: Seq<HunkModel>) -> Seq<HunkModel>
    decreases list.len(),
{
    if list.len() == 0 {
        Seq::empty()
    } else {
        inserted(sorted(list.drop_last()), list.last())
    }
}

/// The base lines from `cursor` on with the hunks put in; `None` where a hunk
/// starts before the cursor or points outside the lines.
pub open spec fn applied(lines: Seq<Seq<char>>, hunks: Seq<HunkModel>, cursor: int) -> Option<
    Seq<char>,
>
    decreases hunks.len(),
{
    if hunks.len() == 0 {
        Some(segment::concat(lines.subrange(cursor, lines.len() as int)))
    } else {
        let h = hunks[0];
        if h.start < cursor || h.end > lines.len() || h.start > h.end {
            None
        } else {
            match applied(lines, hunks.skip(1), h.end) {
                Some(rest) => Some(
                    segment::concat(lines.subrange(cursor, h.start)) + h.replacement + rest,
                ),
                None => None,
            }
        }
    }
}

/// The merge of two texts, given the line diffs from the base to each.
pub open spec fn merged_lines(
    base: Seq<char>,
    ours: Seq<char>,
    theirs: Seq<char>,
    our_steps: Seq<LineStep>,
    their_steps: Seq<LineStep>,
) -> Option<Seq<char>> {
    match (
        side_hunks(our_steps, segment::split_inclusive(ours)),
        side_hunks(their_steps, segment::split_inclusive(theirs)),
    ) {
        (Some(o), Some(t)) => match combined(o, t) {
            Some(list) => applied(segment::split_inclusive(base), sorted(list), 0),
            None => None,
        },
        _ => None,
    }
}

pub proof fn lemma_concat_push(parts: Seq<Seq<char>>, last: Seq<char>)
    ensures
        segment::concat(parts.push(last)) == segment::concat(parts) + last,
{
    assert(parts.push(last).drop_last() =~= parts);
}

/// The lines of a range, one after another.
fn concat_range(lines: &Vec<Vec<char>>, from: usize, to: usize) -> (r: Vec<char>)
    requires
        from <= to <= lines@.len(),
    ensures
        r@ == segment::concat(text::pieces(lines@).subrange(from as int, to as int)),
{
    let ghost all = text::pieces(lines@);
    let mut out: Vec<char> = Vec::new();
    let mut i: usize = from;
    assert(all.subrange(from as int, from as int) =~= Seq::<Seq<char>>::empty());
    while i < to
        invariant
            all == text::pieces(lines@),
            from <= i <= to <= lines@.len(),
            out@ == segment::concat(all.subrange(from as int, i as int)),
        decreases to - i,
    {
        segment::append_chars(&mut out, lines[i].as_slice());
        proof {
            lemma_concat_push(all.subrange(from as int, i as int), all[i as int]);
            assert(all.subrange(from as int, i as int).push(all[i as int]) =~= all.subrange(
                from as int,
                i + 1,
            ));
        }
        i = i + 1;
    }
    out
}

fn hunks_from(steps: &Vec<LineStep>, lines: &Vec<Vec<char>>) -> (r: Option<Vec<Hunk>>)
    ensures
        r.is_some() == (side_hunks(steps@, text::pieces(lines@)) is Some),
        r matches Some(v) ==> side_hunks(steps@, text::pieces(lines@)) == Some(hunks_of(v@)),
{
    let ghost all = text::pieces(lines@);
    let mut out: Vec<Hunk> = Vec::new();
    let mut i: usize = 0;
    assert(hunks_of(out@) =~= Seq::<HunkModel>::empty());
    while i < steps.len()
        invariant
            all == text::pieces(lines@),
            i <= steps.len(),
            side_hunks(steps@.take(i as int), all) == Some(hunks_of(out@)),
        decreases steps.len() - i,
    {
        let (equal, start, end, from, to) = steps[i];
        assert(steps@.take(i + 1).drop_last() =~= steps@.take(i as int));
        if !equal {
            if from > to || to > lines.len() {
                proof {
                    lemma_no_side_hunks(steps@, all, i + 1);
                }
                return None;
            }
            let ghost before = out@;
            let replacement = concat_range(lines, from, to);
            out.push(Hunk { start, end, replacement });
            assert(hunks_of(out@) =~= hunks_of(before).push(out@.last()@));
        }
        i = i + 1;
    }
    assert(steps@.take(i as int) =~= steps@);
    Some(out)
}

proof fn lemma_no_side_hunks(steps: Seq<LineStep>, lines: Seq<Seq<char>>, n: int)
    requires
        0 <= n <= steps.len(),
        side_hunks(steps.take(n), lines) is None,
    ensures
        side_hunks(steps, lines) is None,
    decreases steps.len() - n,
{
    if n < steps.len() {
        assert(steps.take(n + 1).drop_last() =~= steps.take(n));
        lemma_no_side_hunks(steps, lines, n + 1);
    } else {
        assert(steps.take(n) =~= steps);
    }
}

fn overlaps(a: &Hunk, b: &Hunk) -> (r: bool)
    ensures
        r == overlap(a@, b@),
{
    if a.start == a.end && b.start == b.end {
        return a.start == b.start;
    }
    (a.start < b.end && b.start < a.end) || a.start == b.start || (a.end == b.end && a.start
        != a.end && b.start != b.end)
}

fn find_overlap<'a>(list: &'a Vec<Hunk>, h: &Hunk) -> (r: Option<&'a Hunk>)
    ensures
        r.is_some() == (first_overlap(hunks_of(list@), h@) is Some),
        r matches Some(found) ==> first_overlap(hunks_of(list@), h@) == Some(found@),
{
    let ghost all = hunks_of(list@);
    let mut i: usize = 0;
    assert(all.skip(0) =~= all);
    while i < list.len()
        invariant
            all == hunks_of(list@),
            i <= list.len(),
            first_overlap(all.skip(i as int), h@) == first_overlap(all, h@),
        decreases list.len() - i,
    {
        assert(all.skip(i as int)[0] == list@[i as int]@);
        if overlaps(&list[i], h) {
            return Some(&list[i]);
        }
        assert(all.skip(i as int).skip(1) =~= all.skip(i + 1));
        i = i + 1;
    }
    None
}

fn same_hunk(a: &Hunk, b: &Hunk) -> (r: bool)
    ensures
        r == (a@ == b@),
{
    a.start == b.start && a.end == b.end && text::eq_chars(
        a.replacement.as_slice(),
        b.replacement.as_slice(),
    )
}

fn combine(ours: Vec<Hunk>, theirs: Vec<Hunk>) -> (r: Option<Vec<Hunk>>)
    ensures
        r.is_some() == (combined(hunks_of(ours@), hunks_of(theirs@)) is Some),
        r matches Some(v) ==> combined(hunks_of(ours@), hunks_of(theirs@)) == Some(hunks_of(v@)),
{
    let ghost o = hunks_of(ours@);
    let ghost t = hunks_of(theirs@);
    let ghost given = theirs@;
    let ghost mut done: int = 0;
    let mut list = ours;
    let mut rest = theirs;
    assert(t.take(0) =~= Seq::<HunkModel>::empty());
    assert(given.skip(0) =~= given);
    while rest.len() > 0
        invariant
            o == hunks_of(ours@),
            t == hunks_of(theirs@),
            t == hunks_of(given),
            0 <= done <= given.len(),
            rest@ == given.skip(done),
            combined(o, t.take(done)) == Some(hunks_of(list@)),
        decreases rest@.len(),
    {
        let h = rest.remove(0);
        let ghost now = t.take(done + 1);
        assert(h == given[done]);
        assert(now.drop_last() =~= t.take(done));
        assert(now.last() == h@);
        assert(rest@ =~= given.skip(done + 1));
        let clash = match find_overlap(&list, &h) {
            Some(found) => Some(same_hunk(found, &h)),
            None => None,
        };
        match clash {
            Some(same) => {
                if !same {
                    proof {
                        lemma_no_combined(o, t, done + 1);
                    }
                    return None;
                }
            },
            None => {
                let ghost before = list@;
                list.push(h);
                assert(hunks_of(list@) =~= hunks_of(before).push(h@));
            },
        }
        proof {
            done = done + 1;
        }
    }
    assert(t.take(done) =~= t);
    Some(list)
}

proof fn lemma_no_combined(o: Seq<HunkModel>, t: Seq<HunkModel>, n: int)
    requires
        0 <= n <= t.len(),
        combined(o, t.take(n)) is None,
    ensures
        combined(o, t) is None,
    decreases t.len() - n,
{
    if n < t.len() {
        assert(t.take(n + 1).drop_last() =~= t.take(n));
        lemma_no_combined(o, t, n + 1);
    } else {
        assert(t.take(n) =~= t);
    }
}

fn insert_hunk(list: &mut Vec<Hunk>, h: Hunk)
    ensures
        hunks_of(final(list)@) == inserted(hunks_of(old(list)@), h@),
{
    let ghost all = hunks_of(list@);
    let mut n: usize = list.len();
    assert(all.take(n as int) =~= all);
    assert(all.skip(n as int) =~= Seq::<HunkModel>::empty());
    assert(inserted(all.take(n as int), h@) + all.skip(n as int) =~= inserted(all, h@));
    while n > 0 && (list[n - 1].start > h.start || (list[n - 1].start == h.start && list[n - 1].end
        > h.end))
        invariant
            n <= list@.len(),
            all == hunks_of(list@),
            inserted(all.take(n as int), h@) + all.skip(n as int) == inserted(all, h@),
        decreases n,
    {
        assert(all[n - 1] == list@[n - 1]@);
        assert(all.take(n as int).drop_last() =~= all.take(n - 1));
        assert(all.take(n as int).last() == all[n - 1]);
        assert(inserted(all.take(n - 1), h@) + all.skip(n - 1) =~= inserted(all.take(n as int), h@)
            + all.skip(n as int));
        n = n - 1;
    }
    proof {
        if n > 0 {
            assert(all[n - 1] == list@[n - 1]@);
            assert(all.take(n as int).last() == all[n - 1]);
        }
        assert(inserted(all.take(n as int), h@) == all.take(n as int).push(h@));
    }
    let ghost before = list@;
    list.insert(n, h);
    assert(hunks_of(list@) =~= all.take(n as int).push(h@) + all.skip(n as int));
}

fn sort(list: Vec<Hunk>) -> (r: Vec<Hunk>)
    ensures
        hunks_of(r@) == sorted(hunks_of(list@)),
{
    let ghost all = hunks_of(list@);
    let mut out: Vec<Hunk> = Vec::new();
    let mut rest = list;
    let ghost given = list@;
    let ghost mut done: int = 0;
    assert(all.take(0) =~= Seq::<HunkModel>::empty());
    assert(hunks_of(out@) =~= Seq::<HunkModel>::empty());
    assert(given.skip(0) =~= given);
    while rest.len() > 0
        invariant
            all == hunks_of(given),
            0 <= done <= given.len(),
            rest@ == given.skip(done),
            hunks_of(out@) == sorted(all.take(done)),
        decreases rest@.len(),
    {
        let h = rest.remove(0);
        assert(h == given[done]);
        assert(all.take(done + 1).drop_last() =~= all.take(done));
        assert(all.take(done + 1).last() == h@);
        assert(rest@ =~= given.skip(done + 1));
        insert_hunk(&mut out, h);
        proof {
            done = done + 1;
        }
    }
    assert(all.take(done) =~= all);
    out
}

fn apply(lines: &Vec<Vec<char>>, hunks: &Vec<Hunk>, from: usize, cursor: usize) -> (r: Option<
    Vec<char>,
>)
    requires
        from <= hunks@.len(),
        cursor <= lines@.len(),
    ensures
        r.is_some() == (applied(
            text::pieces(lines@),
            hunks_of(hunks@).skip(from as int),
            cursor as int,
        ) is Some),
        r matches Some(v) ==> applied(
            text::pieces(lines@),
            hunks_of(hunks@).skip(from as int),
            cursor as int,
        ) == Some(v@),
    decreases hunks@.len() - from,
{
    let ghost rest = hunks_of(hunks@).skip(from as int);
    if from >= hunks.len() {
        return Some(concat_range(lines, cursor, lines.len()));
    }
    let h = &hunks[from];
    assert(rest[0] == h@);
    assert(rest.skip(1) =~= hunks_of(hunks@).skip(from + 1));
    if h.start < cursor || h.end > lines.len() || h.start > h.end {
        return None;
    }
    match apply(lines, hunks, from + 1, h.end) {
        None => None,
        Some(tail) => {
            let mut out = concat_range(lines, cursor, h.start);
            segment::append_chars(&mut out, h.replacement.as_slice());
            segment::append_chars(&mut out, tail.as_slice());
            Some(out)
        },
    }
}

/// Merges two texts, given the line diffs from the base to each.
pub fn merge_with_steps(
    base: &str,
    ours: &str,
    theirs: &str,
    our_steps: &Vec<LineStep>,
    their_steps: &Vec<LineStep>,
) -> (r: Option<String>)
    ensures
        text::view_option(r) == merged_lines(base@, ours@, theirs@, our_steps@, their_steps@),
{
    let our_lines = segment::split_after_lines(text::chars_of(ours).as_slice());
    let their_lines = segment::split_after_lines(text::chars_of(theirs).as_slice());
    let base_lines = segment::split_after_lines(text::chars_of(base).as_slice());
    let our_hunks = match hunks_from(our_steps, &our_lines) {
        Some(v) => v,
        None => {
            return None;
        },
    };
    let their_hunks = match hunks_from(their_steps, &their_lines) {
        Some(v) => v,
        None => {
            return None;
        },
    };
    match combine(our_hunks, their_hunks) {
        None => None,
        Some(list) => {
            let hunks = sort(list);
            assert(hunks_of(hunks@).skip(0) =~= hunks_of(hunks@));
            match apply(&base_lines, &hunks, 0, 0) {
                Some(chars) => Some(text::string_of(chars.as_slice())),
                None => None,
            }
        },
    }
}

/// Merges two texts line by line; `None` where both changed the same lines.
pub fn merge_text_lines(base: &str, ours: &str, theirs: &str) -> (r: Option<String>)
    ensures
        text::view_option(r) == merged_lines(
            base@,
            ours@,
            theirs@,
            line_diff(base@, ours@),
            line_diff(base@, theirs@),
        ),
{
    let our_steps = line_steps(base, ours);
    let their_steps = line_steps(base, theirs);
    merge_with_steps(base, ours, theirs, &our_steps, &their_steps)
}

proof fn lemma_first_overlap(list: Seq<HunkModel>, h: HunkModel)
    ensures
        first_overlap(list, h) matches Some(found) ==> list.contains(found) && overlap(found, h),
        first_overlap(list, h) is None ==> forall|i: int|
            0 <= i < list.len() ==> !overlap(#[trigger] list[i], h),
    decreases list.len(),
{
    if list.len() > 0 {
        let rest = list.skip(1);
        assert(forall|i: int| 0 <= i < rest.len() ==> rest[i] == list[i + 1]);
        if overlap(list[0], h) {
            assert(list.contains(list[0]));
        } else {
            lemma_first_overlap(rest, h);
            match first_overlap(rest, h) {
                Some(found) => {
                    let i = choose|i: int| 0 <= i < rest.len() && rest[i] == found;
                    assert(list[i + 1] == found);
                },
                None => {
                    assert forall|i: int| 0 <= i < list.len() implies !overlap(
                        #[trigger] list[i],
                        h,
                    ) by {
                        if i > 0 {
                            assert(rest[i - 1] == list[i]);
                        }
                    }
                },
            }
        }
    }
}

/// Law: the merge of two lists of changes has every change of either side and no other, and
/// there is none where a change of one side touches only changes of the other that differ
/// from it.
pub proof fn law_merged_changes_are_those_of_both(
    ours: Seq<HunkModel>,
    theirs: Seq<HunkModel>,
    h: HunkModel,
)
    requires
        combined(ours, theirs) is Some,
    ensures
        combined(ours, theirs)->Some_0.contains(h) <==> ours.contains(h) || theirs.contains(h),
        ours.is_prefix_of(combined(ours, theirs)->Some_0),
        theirs.contains(h) ==> ours.contains(h) || first_overlap(ours, h) is None,
    decreases theirs.len(),
{
    if theirs.len() > 0 {
        let before = theirs.drop_last();
        let last = theirs.last();
        law_merged_changes_are_those_of_both(ours, before, h);
        law_merged_changes_are_those_of_both(ours, before, last);
        let list = combined(ours, before)->Some_0;
        let all = combined(ours, theirs)->Some_0;
        lemma_first_overlap(list, last);
        lemma_first_overlap(ours, last);
        if before.contains(h) {
            let i = choose|i: int| 0 <= i < before.len() && before[i] == h;
            assert(theirs[i] == h);
        }
        if theirs.contains(h) && h != last {
            let i = choose|i: int| 0 <= i < theirs.len() && theirs[i] == h;
            assert(before[i] == h);
        }
        assert(theirs[theirs.len() - 1] == last);
        if list.contains(h) {
            let i = choose|i: int| 0 <= i < list.len() && list[i] == h;
            assert(all[i] == h);
        }
        if all.contains(h) && !list.contains(h) {
            let i = choose|i: int| 0 <= i < all.len() && all[i] == h;
            if i < list.len() {
                assert(list[i] == h);
            }
        }
        if first_overlap(list, last) is None {
            assert(all[list.len() as int] == last);
            if first_overlap(ours, last) is Some {
                let found = first_overlap(ours, last)->Some_0;
                let i = choose|i: int| 0 <= i < ours.len() && ours[i] == found;
                assert(list[i] == found);
            }
        } else if !ours.contains(last) && first_overlap(ours, last) is Some {
            lemma_overlap_of_prefix(ours, list, last);
        }
        assert forall|i: int| 0 <= i < ours.len() implies ours[i] == all[i] by {
            assert(ours[i] == list[i]);
        }
    } else {
        assert(!theirs.contains(h));
    }
}

/// The first overlap of a list is that of its prefix, where that has one.
proof fn lemma_overlap_of_prefix(a: Seq<HunkModel>, b: Seq<HunkModel>, h: HunkModel)
    requires
        a.is_prefix_of(b),
        first_overlap(a, h) is Some,
    ensures
        first_overlap(b, h) == first_overlap(a, h),
    decreases a.len(),
{
    assert(a[0] == b[0]);
    if !overlap(a[0], h) {
        assert forall|i: int| 0 <= i < a.skip(1).len() implies a.skip(1)[i] == b.skip(1)[i] by {
            assert(a[i + 1] == b[i + 1]);
        }
        assert(a.skip(1).is_prefix_of(b.skip(1)));
        lemma_overlap_of_prefix(a.skip(1), b.skip(1), h);
    }
}

proof fn lemma_inserted(list: Seq<HunkModel>, h: HunkModel)
    ensures
        inserted(list, h).to_multiset() == list.to_multiset().insert(h),
        inserted(list, h).len() == list.len() + 1,
        forall|x: HunkModel|
            #[trigger] inserted(list, h).contains(x) <==> list.contains(x) || x == h,
    decreases list.len(),
{
    broadcast use vstd::seq_lib::group_to_multiset_ensures;

    if list.len() > 0 && comes_after(list.last(), h) {
        let head = list.drop_last();
        lemma_inserted(head, h);
        assert(list =~= head.push(list.last()));
        assert(inserted(list, h).to_multiset() =~= list.to_multiset().insert(h));
    } else {
        assert(inserted(list, h).to_multiset() =~= list.to_multiset().insert(h));
    }
    let now = inserted(list, h);
    assert forall|x: HunkModel| #[trigger] now.contains(x) <==> list.contains(x) || x == h by {
        assert(now.contains(x) <==> now.to_multiset().count(x) > 0);
        assert(list.contains(x) <==> list.to_multiset().count(x) > 0);
    }
}

/// Changes in the order of their places.
pub open spec fn in_order(list: Seq<HunkModel>) -> bool {
    forall|i: int, j: int|
        0 <= i < j < list.len() ==> !comes_after(#[trigger] list[i], #[trigger] list[j])
}

proof fn lemma_inserted_in_order(list: Seq<HunkModel>, h: HunkModel)
    requires
        in_order(list),
    ensures
        in_order(inserted(list, h)),
    decreases list.len(),
{
    let now = inserted(list, h);
    if list.len() > 0 && comes_after(list.last(), h) {
        let head = list.drop_last();
        assert forall|i: int, j: int| 0 <= i < j < head.len() implies !comes_after(
            #[trigger] head[i],
            #[trigger] head[j],
        ) by {
            assert(list[i] == head[i] && list[j] == head[j]);
        }
        lemma_inserted_in_order(head, h);
        lemma_inserted(head, h);
        let front = inserted(head, h);
        assert forall|i: int, j: int| 0 <= i < j < now.len() implies !comes_after(
            #[trigger] now[i],
            #[trigger] now[j],
        ) by {
            assert(now[i] == front[i]);
            if j < front.len() {
                assert(now[j] == front[j]);
            } else {
                assert(front.contains(front[i]));
                if head.contains(front[i]) {
                    let k = choose|k: int| 0 <= k < head.len() && head[k] == front[i];
                    assert(list[k] == front[i]);
                    assert(list[list.len() - 1] == now[j]);
                    assert(!comes_after(list[k], list[list.len() - 1]));
                }
            }
        }
    } else {
        assert forall|i: int, j: int| 0 <= i < j < now.len() implies !comes_after(
            #[trigger] now[i],
            #[trigger] now[j],
        ) by {
            assert(now[i] == list[i]);
            if j < list.len() {
                assert(now[j] == list[j]);
            } else if i < list.len() - 1 {
                assert(!comes_after(list[i], list[list.len() - 1]));
            }
        }
    }
}

/// Law: changes are applied in the order of their places, each as often as it is given.
pub proof fn law_changes_are_sorted(list: Seq<HunkModel>)
    ensures
        in_order(sorted(list)),
        sorted(list).to_multiset() == list.to_multiset(),
    decreases list.len(),
{
    broadcast use vstd::seq_lib::group_to_multiset_ensures;

    if list.len() > 0 {
        let head = list.drop_last();
        law_changes_are_sorted(head);
        lemma_inserted(sorted(head), list.last());
        lemma_inserted_in_order(sorted(head), list.last());
        assert(list =~= head.push(list.last()));
        assert(sorted(list).to_multiset() =~= list.to_multiset());
    } else {
        assert(sorted(list) =~= list);
    }
}

/// Law: a change replaces its lines and leaves all others: what stands before the first
/// change and behind the last one stays, and without a change the lines stay as they are.
pub proof fn law_applied_changes_replace_their_lines(
    lines: Seq<Seq<char>>,
    h: HunkModel,
    cursor: int,
)
    requires
        0 <= cursor <= h.start <= h.end <= lines.len(),
    ensures
        applied(lines, Seq::empty(), cursor) == Some(
            segment::concat(lines.subrange(cursor, lines.len() as int)),
        ),
        applied(lines, seq![h], cursor) == Some(
            segment::concat(lines.subrange(cursor, h.start)) + h.replacement + segment::concat(
                lines.subrange(h.end, lines.len() as int),
            ),
        ),
{
    assert(seq![h].skip(1) =~= Seq::<HunkModel>::empty());
    assert(seq![h][0] == h);
    assert(applied(lines, Seq::empty(), h.end) == Some(
        segment::concat(lines.subrange(h.end, lines.len() as int)),
    ));
}

} // verus!
