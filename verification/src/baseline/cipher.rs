//! Per-unit fingerprints of a ciphertext envelope.
//!
//! Thanks to per-leaf ciphertext stability, comparing the raw `ENC[...]`
//! strings answers "did this unit change" without any decryption, which is
//! what keeps `status` keyless.

use vstd::prelude::*;

use crate::baseline::unit;
use crate::codec::leaf_map;
use crate::envelope::ciphertext;
use crate::envelope::CiphertextEnvelope;
use crate::segment;
use crate::text;
use crate::text_map;
use crate::text_map::TextMap;

verus! {

/// The number of characters before a dot or a bracket.
pub open spec fn head_length(s: Seq<char>) -> nat
    decreases s.len(),
{
    if s.len() == 0 || s[0] == '.' || s[0] == '[' {
        0
    } else {
        1 + head_length(s.skip(1))
    }
}

/// The top-level unit of a leaf.
///
/// A key that holds a dot may be attributed to a parent unit; that only widens
/// change detection, never narrows it.
pub open spec fn unit_of(path: Seq<char>) -> Seq<char> {
    if (path.len() > 0 && path[0] == '[') || path == "$"@ {
        "$"@
    } else {
        path.take(head_length(path) as int)
    }
}

proof fn lemma_head_length(s: Seq<char>)
    ensures
        head_length(s) <= s.len(),
    decreases s.len(),
{
    if s.len() > 0 && s[0] != '.' && s[0] != '[' {
        lemma_head_length(s.skip(1));
    }
}

fn find_unit(path: &str) -> (r: String)
    ensures
        r@ == unit_of(path@),
{
    let chars = text::chars_of(path);
    if (chars.len() > 0 && chars[0] == '[') || text::eq(path, unit::ROOT_UNIT) {
        return unit::ROOT_UNIT.to_owned();
    }
    let mut i: usize = 0;
    assert(chars@.skip(0) =~= chars@);
    while i < chars.len() && chars[i] != '.' && chars[i] != '['
        invariant
            i <= chars.len(),
            chars@ == path@,
            head_length(path@) == i + head_length(chars@.skip(i as int)),
        decreases chars.len() - i,
    {
        assert(chars@.skip(i as int).skip(1) =~= chars@.skip(i + 1));
        assert(chars@.skip(i as int)[0] == chars@[i as int]);
        i = i + 1;
    }
    proof {
        if i < chars.len() {
            assert(chars@.skip(i as int)[0] == chars@[i as int]);
        }
    }
    let out = segment::slice_to_vec(chars.as_slice(), 0, i);
    assert(out@ =~= path@.take(i as int));
    text::string_of(out.as_slice())
}

/// One line of a fingerprint.
pub open spec fn leaf_line(path: Seq<char>, leaf: Seq<char>) -> Seq<char> {
    path + "="@ + leaf + "\n"@
}

/// The fingerprints with one leaf more.
pub open spec fn with_line(
    units: Seq<(Seq<char>, Seq<char>)>,
    path: Seq<char>,
    leaf: Seq<char>,
) -> Seq<(Seq<char>, Seq<char>)> {
    let unit = unit_of(path);
    let body = match text_map::value_at(units, unit) {
        Some(body) => body,
        None => Seq::empty(),
    };
    text_map::with_value(units, unit, body + leaf_line(path, leaf))
}

/// The fingerprints of the units of an envelope.
pub open spec fn fingerprints(leaves: Seq<(Seq<char>, Seq<char>)>) -> Seq<(Seq<char>, Seq<char>)>
    decreases leaves.len(),
{
    if leaves.len() == 0 {
        Seq::empty()
    } else {
        with_line(fingerprints(leaves.drop_last()), leaves.last().0, leaves.last().1)
    }
}

pub struct CipherModel {
    pub units: Seq<(Seq<char>, Seq<char>)>,
    pub layout: Seq<char>,
}

#[derive(Debug, PartialEq, Eq)]
pub struct CipherSummary {
    units: TextMap,
    layout: String,
}

impl View for CipherSummary {
    type V = CipherModel;

    closed spec fn view(&self) -> CipherModel {
        CipherModel { units: self.units@, layout: self.layout@ }
    }
}

/// The summary of an envelope.
pub open spec fn summary_of(envelope: ciphertext::CiphertextModel) -> CipherModel {
    CipherModel { units: fingerprints(envelope.leaves), layout: envelope.layout }
}

impl CipherSummary {
    pub fn from_envelope(envelope: &CiphertextEnvelope) -> (r: CipherSummary)
        ensures
            r@ == summary_of(envelope@),
    {
        let leaves = leaf_map::list_leaves(envelope.leaf_ciphertexts());
        let ghost all = leaf_map::view_leaves(leaves@);
        let mut units = TextMap::new();
        let mut i: usize = 0;
        while i < leaves.len()
            invariant
                all == leaf_map::view_leaves(leaves@),
                i <= leaves.len(),
                units@ == fingerprints(all.take(i as int)),
            decreases leaves.len() - i,
        {
            assert(all.take(i + 1).drop_last() =~= all.take(i as int));
            assert(all.take(i + 1).last() == (leaves@[i as int].0@, leaves@[i as int].1@));
            let path = leaves[i].0.as_str();
            let unit = find_unit(path);
            let mut body = match units.get(unit.as_str()) {
                Some(body) => body.clone(),
                None => String::new(),
            };
            let ghost before = body@;
            body.append(path);
            body.append("=");
            body.append(leaves[i].1.as_str());
            body.append("\n");
            assert(body@ =~= before + leaf_line(leaves@[i as int].0@, leaves@[i as int].1@));
            units = units.with(unit.as_str(), body);
            i = i + 1;
        }
        assert(all.take(i as int) =~= all);
        CipherSummary { units, layout: envelope.layout_ciphertext().to_owned() }
    }

    /// The summary of an envelope without leaves.
    pub fn empty() -> (r: CipherSummary)
        ensures
            r@ == (CipherModel { units: Seq::empty(), layout: Seq::empty() }),
    {
        CipherSummary { units: TextMap::new(), layout: String::new() }
    }

    /// The units in the order of their names.
    pub fn units(&self) -> (r: &TextMap)
        ensures
            r@ == self@.units,
    {
        &self.units
    }

    pub fn layout(&self) -> (r: &str)
        ensures
            r@ == self@.layout,
    {
        self.layout.as_str()
    }

    /// The names of the units in order.
    pub fn unit_names(&self) -> (r: Vec<String>)
        ensures
            text::texts(r@) == self@.units.map_values(|x: (Seq<char>, Seq<char>)| x.0),
    {
        let list = self.units.entries();
        let mut out: Vec<String> = Vec::new();
        let mut i: usize = 0;
        while i < list.len()
            invariant
                i <= list.len(),
                out@.len() == i,
                forall|j: int| 0 <= j < i ==> (#[trigger] out@[j])@ == list@[j].0@,
            decreases list.len() - i,
        {
            out.push(list[i].0.clone());
            i = i + 1;
        }
        assert(text::texts(out@) =~= self@.units.map_values(|x: (Seq<char>, Seq<char>)| x.0));
        out
    }
}

proof fn lemma_head_is(s: Seq<char>)
    ensures
        forall|i: int| 0 <= i < head_length(s) ==> #[trigger] s[i] != '.' && s[i] != '[',
        head_length(s) < s.len() ==> s[head_length(s) as int] == '.' || s[head_length(s) as int]
            == '[',
    decreases s.len(),
{
    lemma_head_length(s);
    if s.len() > 0 && s[0] != '.' && s[0] != '[' {
        let rest = s.skip(1);
        lemma_head_length(rest);
        lemma_head_is(rest);
        assert forall|i: int| 0 <= i < head_length(s) implies #[trigger] s[i] != '.' && s[i]
            != '[' by {
            if i > 0 {
                assert(rest[i - 1] == s[i]);
            }
        }
    }
}

/// Law: the unit of a leaf is its path up to the first dot or bracket, and the whole
/// document for a path that is the root or begins with an index.
pub proof fn law_units_are_top_level_keys(path: Seq<char>, unit: Seq<char>, rest: Seq<char>)
    requires
        path == unit + rest,
        forall|i: int| 0 <= i < unit.len() ==> #[trigger] unit[i] != '.' && unit[i] != '[',
        rest.len() == 0 || rest[0] == '.' || (rest[0] == '[' && unit.len() > 0),
    ensures
        unit_of(path) == if unit == "$"@ && rest.len() == 0 {
            "$"@
        } else {
            unit
        },
        unit_of(seq!['['] + rest) == "$"@,
{
    reveal_strlit("$");
    let n = head_length(path) as int;
    lemma_head_length(path);
    lemma_head_is(path);
    if n < unit.len() {
        assert(path[n] == unit[n]);
    }
    if unit.len() < n {
        assert(path[unit.len() as int] == rest[0]);
    }
    assert(path.take(n) =~= unit);
    if path == "$"@ && unit.len() == 0 {
        assert(path[0] == rest[0]);
    }
    if path == "$"@ && rest.len() > 0 {
        assert(path[unit.len() as int] == rest[0]);
    }
    if rest.len() == 0 {
        assert(path =~= unit);
    }
    assert((seq!['['] + rest)[0] == '[');
}

/// Every leaf of a unit, each on a line of its own.
pub open spec fn unit_lines(leaves: Seq<(Seq<char>, Seq<char>)>, unit: Seq<char>) -> Seq<Seq<char>> {
    leaves.filter(|x: (Seq<char>, Seq<char>)| unit_of(x.0) == unit).map_values(
        |x: (Seq<char>, Seq<char>)| leaf_line(x.0, x.1),
    )
}

/// Law: the fingerprint of a unit is made of every encrypted leaf of the unit, in their
/// order, and of no other; there is one exactly where the unit has a leaf. The units stand in
/// the order of their names.
pub proof fn law_fingerprints_hold_every_leaf(
    leaves: Seq<(Seq<char>, Seq<char>)>,
    unit: Seq<char>,
)
    ensures
        text_map::ordered(fingerprints(leaves)),
        text_map::value_at(fingerprints(leaves), unit) == if unit_lines(leaves, unit).len() > 0 {
            Some(crate::segment::concat(unit_lines(leaves, unit)))
        } else {
            None
        },
    decreases leaves.len(),
{
    reveal(Seq::filter);
    let keep = |x: (Seq<char>, Seq<char>)| unit_of(x.0) == unit;
    if leaves.len() > 0 {
        let head = leaves.drop_last();
        let (path, leaf) = leaves.last();
        law_fingerprints_hold_every_leaf(head, unit);
        let before = fingerprints(head);
        let body = match text_map::value_at(before, unit_of(path)) {
            Some(body) => body,
            None => Seq::empty(),
        };
        let more = body + leaf_line(path, leaf);
        text_map::lemma_with_value(before, unit_of(path), more);
        text_map::lemma_value_put(before, unit_of(path), more, unit);
        if unit_of(path) == unit {
            let lines = unit_lines(head, unit);
            assert(unit_lines(leaves, unit) =~= lines.push(leaf_line(path, leaf)));
            assert(lines.push(leaf_line(path, leaf)).drop_last() =~= lines);
            if lines.len() == 0 {
                assert(lines =~= Seq::<Seq<char>>::empty());
                assert(crate::segment::concat(lines) =~= Seq::<char>::empty());
            }
        } else {
            assert(unit_lines(leaves, unit) =~= unit_lines(head, unit));
        }
    } else {
        assert(leaves.filter(keep) =~= Seq::<(Seq<char>, Seq<char>)>::empty());
    }
}

} // verus!
