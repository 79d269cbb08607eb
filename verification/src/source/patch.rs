//! Texts with parts replaced, each part given by its range of bytes.

use vstd::prelude::*;
use vstd::string::StrSliceExecFns;

use crate::text;

verus! {

/// A range of bytes of a text, and what stands in its place.
pub struct PatchModel {
    pub start: int,
    pub end: int,
    pub text: Seq<char>,
}

pub struct Patch {
    pub start: usize,
    pub end: usize,
    pub text: String,
}

impl View for Patch {
    type V = PatchModel;

    open spec fn view(&self) -> PatchModel {
        PatchModel { start: self.start as int, end: self.end as int, text: self.text@ }
    }
}

pub open spec fn patches(v: Seq<Patch>) -> Seq<PatchModel> {
    v.map_values(|p: Patch| p@)
}

/// A patch put behind the last one that does not start before it.
pub open spec fn inserted(list: Seq<PatchModel>, p: PatchModel) -> Seq<PatchModel>
    decreases list.len(),
{
    if list.len() > 0 && list.last().start < p.start {
        inserted(list.drop_last(), p).push(list.last())
    } else {
        list.push(p)
    }
}

/// The patches from the last of the text to the first.
pub open spec fn from_the_end(list: Seq<PatchModel>) -> Seq<PatchModel>
    decreases list.len(),
{
    if list.len() == 0 {
        Seq::empty()
    } else {
        inserted(from_the_end(list.drop_last()), list.last())
    }
}

/// The bytes with the patches from `i` on put in; `None` where a range does not lie in
/// them.
pub open spec fn spliced(body: Seq<u8>, list: Seq<PatchModel>, i: int) -> Option<Seq<u8>>
    decreases list.len() - i,
{
    if i < 0 || i >= list.len() {
        Some(body)
    } else {
        let p = list[i];
        if 0 <= p.start <= p.end <= body.len() {
            spliced(
                body.take(p.start) + vstd::utf8::encode_utf8(p.text) + body.skip(p.end),
                list,
                i + 1,
            )
        } else {
            None
        }
    }
}

/// The text with every patch put in; `None` where a range does not lie in the text or
/// cuts a character.
pub open spec fn patched(s: Seq<char>, list: Seq<PatchModel>) -> Option<Seq<char>> {
    match spliced(vstd::utf8::encode_utf8(s), from_the_end(list), 0) {
        Some(body) => if vstd::utf8::valid_utf8(body) {
            Some(vstd::utf8::decode_utf8(body))
        } else {
            None
        },
        None => None,
    }
}

fn insert_patch(list: &mut Vec<Patch>, p: Patch)
    ensures
        patches(final(list)@) == inserted(patches(old(list)@), p@),
{
    let ghost all = patches(list@);
    let ghost m = p@;
    let mut n: usize = list.len();
    assert(all.take(n as int) =~= all);
    assert(all.skip(n as int) =~= Seq::<PatchModel>::empty());
    assert(inserted(all.take(n as int), m) + all.skip(n as int) =~= inserted(all, m));
    while n > 0 && list[n - 1].start < p.start
        invariant
            n <= list@.len(),
            all == patches(list@),
            m == p@,
            inserted(all.take(n as int), m) + all.skip(n as int) == inserted(all, m),
        decreases n,
    {
        assert(all[n - 1] == list@[n - 1]@);
        assert(all.take(n as int).drop_last() =~= all.take(n - 1));
        assert(all.take(n as int).last() == all[n - 1]);
        assert(inserted(all.take(n - 1), m) + all.skip(n - 1) =~= inserted(all.take(n as int), m)
            + all.skip(n as int));
        n = n - 1;
    }
    proof {
        if n > 0 {
            assert(all[n - 1] == list@[n - 1]@);
            assert(all.take(n as int).last() == all[n - 1]);
        }
        assert(inserted(all.take(n as int), m) == all.take(n as int).push(m));
    }
    list.insert(n, p);
    assert(patches(list@) =~= all.take(n as int).push(m) + all.skip(n as int));
}

fn sort_from_the_end(list: Vec<Patch>) -> (r: Vec<Patch>)
    ensures
        patches(r@) == from_the_end(patches(list@)),
{
    let ghost all = patches(list@);
    let ghost given = list@;
    let ghost mut done: int = 0;
    let mut out: Vec<Patch> = Vec::new();
    let mut rest = list;
    assert(all.take(0) =~= Seq::<PatchModel>::empty());
    assert(patches(out@) =~= Seq::<PatchModel>::empty());
    assert(given.skip(0) =~= given);
    while rest.len() > 0
        invariant
            all == patches(given),
            0 <= done <= given.len(),
            rest@ == given.skip(done),
            patches(out@) == from_the_end(all.take(done)),
        decreases rest@.len(),
    {
        let item = rest.remove(0);
        assert(item == given[done]);
        assert(all.take(done + 1).drop_last() =~= all.take(done));
        assert(all.take(done + 1).last() == item@);
        assert(rest@ =~= given.skip(done + 1));
        insert_patch(&mut out, item);
        proof {
            done = done + 1;
        }
    }
    assert(all.take(done) =~= all);
    out
}

fn push_bytes(out: &mut Vec<u8>, b: &Vec<u8>, from: usize, to: usize)
    requires
        from <= to <= b@.len(),
    ensures
        final(out)@ == old(out)@ + b@.subrange(from as int, to as int),
{
    let ghost start = out@;
    let mut i: usize = from;
    while i < to
        invariant
            from <= i <= to <= b@.len(),
            out@ == start + b@.subrange(from as int, i as int),
        decreases to - i,
    {
        out.push(b[i]);
        i = i + 1;
    }
}

fn splice(body: &Vec<u8>, p: &Patch) -> (r: Option<Vec<u8>>)
    ensures
        if p@.start <= p@.end <= body@.len() {
            r matches Some(b) && b@ == body@.take(p@.start) + vstd::utf8::encode_utf8(p@.text)
                + body@.skip(p@.end)
        } else {
            r is None
        },
{
    if p.start > p.end || p.end > body.len() {
        return None;
    }
    let mut out: Vec<u8> = Vec::new();
    push_bytes(&mut out, body, 0, p.start);
    assert(out@ =~= body@.take(p.start as int));
    let put = p.text.as_str().as_bytes_vec();
    push_bytes(&mut out, &put, 0, put.len());
    assert(put@.subrange(0, put@.len() as int) =~= put@);
    push_bytes(&mut out, body, p.end, body.len());
    assert(body@.subrange(p.end as int, body@.len() as int) =~= body@.skip(p.end as int));
    Some(out)
}

/// Puts every patch into a text.
pub fn patch(s: &str, list: Vec<Patch>) -> (r: Option<String>)
    ensures
        text::view_option(r) == patched(s@, patches(list@)),
{
    let sorted = sort_from_the_end(list);
    let ghost models = patches(sorted@);
    let mut body = s.as_bytes_vec();
    let ghost start = body@;
    let mut i: usize = 0;
    while i < sorted.len()
        invariant
            models == patches(sorted@),
            models == from_the_end(patches(list@)),
            start == vstd::utf8::encode_utf8(s@),
            i <= sorted.len(),
            spliced(body@, models, i as int) == spliced(start, models, 0),
        decreases sorted.len() - i,
    {
        assert(models[i as int] == sorted@[i as int]@);
        match splice(&body, &sorted[i]) {
            None => {
                return None;
            },
            Some(next) => {
                body = next;
            },
        }
        i = i + 1;
    }
    text::from_utf8(body.as_slice())
}

/// Patches from the last of the text to the first.
pub open spec fn descending(list: Seq<PatchModel>) -> bool {
    forall|i: int, j: int|
        0 <= i < j < list.len() ==> (#[trigger] list[i]).start >= (#[trigger] list[j]).start
}

proof fn lemma_inserted_patch(list: Seq<PatchModel>, p: PatchModel)
    ensures
        inserted(list, p).to_multiset() == list.to_multiset().insert(p),
        descending(list) ==> descending(inserted(list, p)),
        list.len() > 0 ==> inserted(list, p).last() == list.last() || inserted(list, p).last() == p,
        inserted(list, p).len() == list.len() + 1,
    decreases list.len(),
{
    broadcast use vstd::seq_lib::group_to_multiset_ensures;

    let now = inserted(list, p);
    if list.len() > 0 && list.last().start < p.start {
        let head = list.drop_last();
        lemma_inserted_patch(head, p);
        assert(list =~= head.push(list.last()));
        assert(now.to_multiset() =~= list.to_multiset().insert(p));
        if descending(list) {
            assert forall|i: int, j: int| 0 <= i < j < head.len() implies (
            #[trigger] head[i]).start >= (#[trigger] head[j]).start by {
                assert(list[i] == head[i] && list[j] == head[j]);
            }
            let front = inserted(head, p);
            assert forall|i: int, j: int| 0 <= i < j < now.len() implies (#[trigger] now[i]).start
                >= (#[trigger] now[j]).start by {
                assert(now[i] == front[i]);
                if j < front.len() {
                    assert(now[j] == front[j]);
                } else {
                    lemma_low_end(head, p, list.last().start, i);
                }
            }
        }
    } else {
        assert(now.to_multiset() =~= list.to_multiset().insert(p));
        if descending(list) {
            assert forall|i: int, j: int| 0 <= i < j < now.len() implies (#[trigger] now[i]).start
                >= (#[trigger] now[j]).start by {
                assert(now[i] == list[i]);
                if j < list.len() {
                    assert(now[j] == list[j]);
                } else if i < list.len() - 1 {
                    assert(list[i].start >= list[list.len() - 1].start);
                }
            }
        }
    }
}

/// What lies above a bound stays above it.
proof fn lemma_low_end(list: Seq<PatchModel>, p: PatchModel, low: int, i: int)
    requires
        forall|k: int| 0 <= k < list.len() ==> (#[trigger] list[k]).start >= low,
        p.start >= low,
        0 <= i < inserted(list, p).len(),
    ensures
        inserted(list, p)[i].start >= low,
    decreases list.len(),
{
    if list.len() > 0 && list.last().start < p.start {
        let head = list.drop_last();
        assert forall|k: int| 0 <= k < head.len() implies (#[trigger] head[k]).start >= low by {
            assert(head[k] == list[k]);
        }
        let front = inserted(head, p);
        if i < front.len() {
            lemma_low_end(head, p, low, i);
            assert(inserted(list, p)[i] == front[i]);
        } else {
            assert(inserted(list, p)[i] == list[list.len() - 1]);
        }
    } else if i < list.len() {
        assert(inserted(list, p)[i] == list[i]);
    }
}

/// Law: patches are put in from the end of the text to its beginning, each as often as it is
/// given, so that none moves the place of another.
pub proof fn law_patches_go_from_the_end(list: Seq<PatchModel>)
    ensures
        descending(from_the_end(list)),
        from_the_end(list).to_multiset() == list.to_multiset(),
    decreases list.len(),
{
    broadcast use vstd::seq_lib::group_to_multiset_ensures;

    if list.len() > 0 {
        let head = list.drop_last();
        law_patches_go_from_the_end(head);
        lemma_inserted_patch(from_the_end(head), list.last());
        assert(list =~= head.push(list.last()));
        assert(from_the_end(list).to_multiset() =~= list.to_multiset());
    } else {
        assert(from_the_end(list) =~= list);
    }
}

/// Law: a patch replaces its range and nothing else; without one the text stays.
pub proof fn law_a_patch_replaces_its_range(s: Seq<u8>, p: PatchModel)
    requires
        0 <= p.start <= p.end <= s.len(),
    ensures
        spliced(s, Seq::empty(), 0) == Some(s),
        spliced(s, seq![p], 0) == Some(
            s.take(p.start) + vstd::utf8::encode_utf8(p.text) + s.skip(p.end),
        ),
{
    let list = seq![p];
    let body = s.take(p.start) + vstd::utf8::encode_utf8(p.text) + s.skip(p.end);
    assert(list[0] == p);
    assert(spliced(body, list, 1) == Some(body));
}

} // verus!
