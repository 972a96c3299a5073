//! Footnotes: the numbering of definitions and of the references to them.

use crate::text::{
    char_at, char_len_utf8, lemma_prefix_split, lemma_utf8_len_add, lemma_utf8_len_lower,
    lemma_utf8_len_step, substring, utf8_len,
};
use std::collections::HashMap;
use vstd::prelude::*;
use vstd::string::*;

verus! {

broadcast use vstd::std_specs::hash::group_hash_axioms;

/// A footnote definition in the document tree: its label, if it was written
/// with one, its number, if its label was new, and whether it was written
/// inline.
#[derive(Debug, Clone, PartialEq, Eq)]
pub struct FootnoteDefinition {
    pub label: Option<String>,
    pub def_id: Option<usize>,
    pub inline: bool,
}

/// A reference to a footnote in the document tree.
#[derive(Debug, Clone, PartialEq, Eq)]
pub struct FootnoteReference {
    pub label: Option<String>,
    pub ref_id: usize,
    pub def_id: usize,
}

/// A footnote that was written where it is referred to: in the document tree
/// it holds its definition and the reference to it.
#[derive(Debug, Clone, Copy, PartialEq, Eq)]
pub struct InlineFootnote;

/// Index of the first `]` or space at or after `from`, or the length of `cs`
/// where there is none.
pub open spec fn label_stop(cs: Seq<char>, from: int) -> int
    decreases cs.len() - from,
{
    if from < 0 || from >= cs.len() {
        cs.len() as int
    } else if cs[from] == ']' || cs[from] == ' ' {
        from
    } else {
        label_stop(cs, from + 1)
    }
}

/// The label of the footnote that `cs` begins with, as `[^label]`: the
/// characters between `[^` and the first `]`, which must be there, with at
/// least one character and no space before it.
pub open spec fn bracket_label(cs: Seq<char>) -> Option<Seq<char>> {
    let stop = label_stop(cs, 2);
    if cs.len() >= 2 && cs[0] == '[' && cs[1] == '^' && 2 < stop < cs.len() && cs[stop] == ']' {
        Some(cs.subrange(2, stop))
    } else {
        None
    }
}

/// The width of the white space from `from` on, counted on from `width`: a
/// space is one column, a tab runs to the next multiple of four.
pub open spec fn indent_width(cs: Seq<char>, from: int, width: nat) -> nat
    decreases cs.len() - from,
{
    if from < 0 || from >= cs.len() {
        width
    } else if cs[from] == ' ' {
        indent_width(cs, from + 1, width + 1)
    } else if cs[from] == '\t' {
        indent_width(cs, from + 1, (width + 4 - width % 4) as nat)
    } else {
        width
    }
}

/// What a line that begins a footnote definition holds: `[^label]:`, then
/// white space. The result is the label and the width of that white space.
pub open spec fn definition_head(cs: Seq<char>) -> Option<(Seq<char>, nat)> {
    match bracket_label(cs) {
        None => None,
        Some(label) => {
            let colon = label.len() as int + 3;
            if colon < cs.len() && cs[colon] == ':' {
                Some((label, indent_width(cs, colon + 1, 0)))
            } else {
                None
            }
        },
    }
}

/// What a reference to a footnote holds, as plain values: its label and the
/// length of the whole reference in bytes.
pub open spec fn reference_head(cs: Seq<char>) -> Option<(Seq<char>, nat)> {
    match bracket_label(cs) {
        None => None,
        Some(label) => Some((label, utf8_len(label) + 3)),
    }
}

/// What the two parsers below return, as plain values.
pub open spec fn head_view(r: Option<(String, usize)>) -> Option<(Seq<char>, nat)> {
    match r {
        Some((label, n)) => Some((label@, n as nat)),
        None => None,
    }
}

/// Reads `[^label]` at the start of `text`, and returns the label with the
/// byte offset of the closing bracket.
fn read_bracket_label<'a>(text: &'a str) -> (r: Option<(&'a str, usize)>)
    ensures
        match r {
            Some((label, close)) => {
                &&& bracket_label(text@) == Some(label@)
                &&& label@.len() + 2 < text@.len()
                &&& text@[label@.len() as int + 2] == ']'
                &&& close == utf8_len(text@.take(label@.len() as int + 2))
                &&& close == utf8_len(label@) + 2
                &&& close < utf8_len(text@) <= usize::MAX
            },
            None => bracket_label(text@) is None,
        },
{
    assert(text@.take(0) =~= Seq::<char>::empty());
    match char_at(text, 0, Ghost(0)) {
        None => {
            return None;
        },
        Some(c) => {
            if c != '[' {
                return None;
            }
        },
    }
    match char_at(text, 1, Ghost(1)) {
        None => {
            return None;
        },
        Some(c) => {
            if c != '^' {
                return None;
            }
        },
    }
    let mut i: usize = 2;
    let ghost mut k: int = 2;
    loop
        invariant
            2 <= k <= text@.len(),
            text@[0] == '[',
            text@[1] == '^',
            utf8_len(text@.take(2)) == 2,
            i == utf8_len(text@.take(k)),
            label_stop(text@, 2) == label_stop(text@, k),
        decreases text@.len() - k,
    {
        match char_at(text, i, Ghost(k)) {
            None => {
                return None;
            },
            Some(c) => {
                if c == ']' {
                    proof {
                        lemma_utf8_len_lower(text@.take(k));
                        lemma_utf8_len_add(text@, 2, k - 2);
                        assert(text@.skip(2).take(k - 2) =~= text@.subrange(2, k));
                    }
                    if i == 2 {
                        return None;
                    }
                    let label = substring(text, 2, i, Ghost(2), Ghost(k));
                    return Some((label, i));
                }
                if c == ' ' {
                    return None;
                }
                i += char_len_utf8(c);
                proof {
                    k = k + 1;
                }
            },
        }
    }
}

/// Reads the head of a footnote definition, `[^label]:` and the white space
/// behind it, at the start of `line`. Returns the label and the width of the
/// white space in columns.
pub fn parse_definition_head(line: &str) -> (r: Option<(String, usize)>)
    requires
        line@.len() <= usize::MAX / 4,
    ensures
        head_view(r) == definition_head(line@),
{
    let (label, close) = match read_bracket_label(line) {
        None => {
            return None;
        },
        Some(found) => found,
    };
    let ghost colon = label@.len() as int + 3;
    proof {
        lemma_utf8_len_step(line@, colon - 1);
        lemma_prefix_split(line@, colon);
    }
    match char_at(line, close + 1, Ghost(colon)) {
        None => {
            return None;
        },
        Some(c) => {
            if c != ':' {
                return None;
            }
        },
    }
    let mut spaces: usize = 0;
    let mut i: usize = close + 2;
    let ghost mut k: int = colon + 1;
    loop
        invariant
            3 <= colon == label@.len() + 3 < k <= line@.len() <= usize::MAX / 4,
            bracket_label(line@) == Some(label@),
            line@[colon] == ':',
            i == utf8_len(line@.take(k)),
            spaces <= 4 * (k - colon - 1),
            indent_width(line@, colon + 1, 0) == indent_width(line@, k, spaces as nat),
        decreases line@.len() - k,
    {
        match char_at(line, i, Ghost(k)) {
            None => {
                return Some((label.to_owned(), spaces));
            },
            Some(c) => {
                if c == ' ' {
                    spaces += 1;
                } else if c == '\t' {
                    spaces += 4 - spaces % 4;
                } else {
                    return Some((label.to_owned(), spaces));
                }
            },
        }
        i += 1;
        proof {
            k = k + 1;
        }
    }
}

/// Reads a reference to a footnote, `[^label]`, at the start of `src`.
/// Returns the label and the length of the reference in bytes.
pub fn parse_reference(src: &str) -> (r: Option<(String, usize)>)
    ensures
        head_view(r) == reference_head(src@),
{
    match read_bracket_label(src) {
        None => None,
        Some((label, close)) => Some((label.to_owned(), close + 1)),
    }
}

/// The footnotes seen so far, as plain values.
pub struct FootnoteMapView {
    /// How many definitions were numbered.
    pub def_counter: nat,
    /// How many references were numbered.
    pub ref_counter: nat,
    /// The number of the definition that each label names.
    pub label_to_def: Map<Seq<char>, usize>,
    /// The numbers of the references to each definition, oldest first.
    pub def_to_refs: Map<usize, Seq<usize>>,
}

impl FootnoteMapView {
    /// The references to the definition `def_id`; none where it has none.
    pub open spec fn refs_of(self, def_id: usize) -> Seq<usize> {
        if self.def_to_refs.contains_key(def_id) {
            self.def_to_refs[def_id]
        } else {
            Seq::empty()
        }
    }
}

/// The labels of the footnote definitions seen so far, and the references
/// made to each definition.
#[derive(Debug)]
pub struct FootnoteMap {
    def_counter: usize,
    ref_counter: usize,
    labels: Vec<(String, usize)>,
    def_to_refs: HashMap<usize, Vec<usize>>,
}

/// The map that a list of labelled numbers stands for.
pub open spec fn labels_map(entries: Seq<(String, usize)>) -> Map<Seq<char>, usize>
    decreases entries.len(),
{
    if entries.len() == 0 {
        Map::empty()
    } else {
        labels_map(entries.drop_last()).insert(entries.last().0@, entries.last().1)
    }
}

/// No label stands twice in the list.
pub open spec fn labels_distinct(entries: Seq<(String, usize)>) -> bool {
    forall|i: int, j: int|
        0 <= i < j < entries.len() ==> (#[trigger] entries[i]).0@ != (#[trigger] entries[j]).0@
}

/// Of a list without a repeated label, the map holds each entry, and
/// nothing else.
proof fn lemma_labels_map(entries: Seq<(String, usize)>)
    requires
        labels_distinct(entries),
    ensures
        forall|i: int|
            0 <= i < entries.len() ==> labels_map(entries).contains_key(
                (#[trigger] entries[i]).0@,
            ) && labels_map(entries)[entries[i].0@] == entries[i].1,
        forall|l: Seq<char>|
            labels_map(entries).contains_key(l) ==> exists|i: int|
                0 <= i < entries.len() && (#[trigger] entries[i]).0@ == l,
    decreases entries.len(),
{
    if entries.len() > 0 {
        let head = entries.drop_last();
        let n = entries.len() - 1;
        assert forall|i: int, j: int| 0 <= i < j < head.len() implies (#[trigger] head[i]).0@ != (
        #[trigger] head[j]).0@ by {
            assert(head[i] == entries[i] && head[j] == entries[j]);
        }
        lemma_labels_map(head);
        assert forall|i: int| 0 <= i < entries.len() implies labels_map(entries).contains_key(
            (#[trigger] entries[i]).0@,
        ) && labels_map(entries)[entries[i].0@] == entries[i].1 by {
            if i < n {
                assert(head[i] == entries[i]);
                assert(entries[i].0@ != entries[n].0@);
            }
        }
        assert forall|l: Seq<char>| labels_map(entries).contains_key(l) implies exists|i: int|
            0 <= i < entries.len() && (#[trigger] entries[i]).0@ == l by {
            if l == entries[n].0@ {
                assert(entries[n].0@ == l);
            } else {
                assert(entries.last() == entries[n]);
                assert(labels_map(head).contains_key(l));
                let i = choose|i: int| 0 <= i < head.len() && (#[trigger] head[i]).0@ == l;
                assert(entries[i] == head[i]);
            }
        }
    }
}

/// The references kept for each definition, as sequences.
pub open spec fn refs_view(m: Map<usize, Vec<usize>>) -> Map<usize, Seq<usize>> {
    m.map_values(|v: Vec<usize>| v@)
}

impl View for FootnoteMap {
    type V = FootnoteMapView;

    /// The counters, and the two maps that the lists stand for.
    closed spec fn view(&self) -> FootnoteMapView {
        FootnoteMapView {
            def_counter: self.def_counter as nat,
            ref_counter: self.ref_counter as nat,
            label_to_def: labels_map(self.labels@),
            def_to_refs: refs_view(self.def_to_refs@),
        }
    }
}

impl Default for FootnoteMap {
    /// A map without footnotes.
    fn default() -> (r: FootnoteMap)
        ensures
            r.wf(),
            r@.def_counter == 0,
            r@.ref_counter == 0,
            r@.label_to_def == Map::<Seq<char>, usize>::empty(),
            r@.def_to_refs == Map::<usize, Seq<usize>>::empty(),
    {
        FootnoteMap::new()
    }
}

impl FootnoteMap {
    /// What holds of every map that the functions below made: no label is
    /// kept twice.
    pub closed spec fn wf(&self) -> bool {
        labels_distinct(self.labels@)
    }

    /// A map without footnotes.
    pub fn new() -> (r: FootnoteMap)
        ensures
            r.wf(),
            r@.def_counter == 0,
            r@.ref_counter == 0,
            r@.label_to_def == Map::<Seq<char>, usize>::empty(),
            r@.def_to_refs == Map::<usize, Seq<usize>>::empty(),
    {
        let r = FootnoteMap {
            def_counter: 0,
            ref_counter: 0,
            labels: Vec::new(),
            def_to_refs: HashMap::new(),
        };
        assert(refs_view(r.def_to_refs@) =~= Map::<usize, Seq<usize>>::empty());
        r
    }

    /// How many definitions were numbered.
    pub fn def_count(&self) -> (n: usize)
        ensures
            n == self@.def_counter,
    {
        self.def_counter
    }

    /// How many references were numbered.
    pub fn ref_count(&self) -> (n: usize)
        ensures
            n == self@.ref_counter,
    {
        self.ref_counter
    }

    /// The number of the definition that `label` names, if it names one.
    fn find(&self, label: &str) -> (r: Option<usize>)
        requires
            self.wf(),
        ensures
            r == if self@.label_to_def.contains_key(label@) {
                Some(self@.label_to_def[label@])
            } else {
                None
            },
    {
        let wanted = label.to_owned();
        let mut i: usize = 0;
        proof {
            lemma_labels_map(self.labels@);
        }
        while i < self.labels.len()
            invariant
                i <= self.labels@.len(),
                wanted@ == label@,
                forall|j: int| 0 <= j < i ==> (#[trigger] self.labels@[j]).0@ != label@,
                forall|j: int|
                    0 <= j < self.labels@.len() ==> labels_map(self.labels@).contains_key(
                        (#[trigger] self.labels@[j]).0@,
                    ) && labels_map(self.labels@)[self.labels@[j].0@] == self.labels@[j].1,
            decreases self.labels@.len() - i,
        {
            if self.labels[i].0 == wanted {
                return Some(self.labels[i].1);
            }
            i += 1;
        }
        None
    }

    /// Numbers a definition.
    ///
    /// Where `label` names no definition yet, the next number is given to it
    /// and returned. Where it names one already, nothing changes and the
    /// result is `None`.
    pub fn add_def(&mut self, label: &str) -> (r: Option<usize>)
        requires
            old(self).wf(),
            old(self)@.def_counter < usize::MAX,
        ensures
            final(self).wf(),
            match r {
                Some(id) => !old(self)@.label_to_def.contains_key(label@) && id == old(
                    self,
                )@.def_counter + 1 && final(self)@ == (FootnoteMapView {
                    def_counter: id as nat,
                    label_to_def: old(self)@.label_to_def.insert(label@, id),
                    ..old(self)@
                }),
                None => old(self)@.label_to_def.contains_key(label@) && final(self)@ == old(
                    self,
                )@,
            },
    {
        if self.find(label).is_some() {
            return None;
        }
        proof {
            lemma_labels_map(self.labels@);
        }
        self.def_counter += 1;
        self.labels.push((label.to_owned(), self.def_counter));
        proof {
            assert(self.labels@.drop_last() =~= old(self).labels@);
            assert forall|i: int, j: int| 0 <= i < j < self.labels@.len() implies (
            #[trigger] self.labels@[i]).0@ != (#[trigger] self.labels@[j]).0@ by {
                assert(self.labels@[i] == old(self).labels@[i]);
                if j < old(self).labels@.len() {
                    assert(self.labels@[j] == old(self).labels@[j]);
                }
            }
        }
        Some(self.def_counter)
    }

    /// Numbers a reference to the definition that `label` names.
    ///
    /// Where `label` names a definition, the next reference number is added
    /// to that definition's references, and the definition's number is
    /// returned with it. Where it names none, nothing changes and the result
    /// is `None`.
    pub fn add_ref(&mut self, label: &str) -> (r: Option<(usize, usize)>)
        requires
            old(self).wf(),
            old(self)@.ref_counter < usize::MAX,
        ensures
            final(self).wf(),
            match r {
                Some((def_id, ref_id)) => old(self)@.label_to_def.contains_key(label@) && def_id
                    == old(self)@.label_to_def[label@] && ref_id == old(self)@.ref_counter + 1
                    && final(self)@ == (FootnoteMapView {
                    ref_counter: ref_id as nat,
                    def_to_refs: old(self)@.def_to_refs.insert(
                        def_id,
                        old(self)@.refs_of(def_id).push(ref_id),
                    ),
                    ..old(self)@
                }),
                None => !old(self)@.label_to_def.contains_key(label@) && final(self)@ == old(
                    self,
                )@,
            },
    {
        match self.find(label) {
            Some(def_id) => {
                self.ref_counter += 1;
                let mut refs = match self.def_to_refs.remove(&def_id) {
                    Some(refs) => refs,
                    None => Vec::new(),
                };
                refs.push(self.ref_counter);
                self.def_to_refs.insert(def_id, refs);
                assert(refs_view(self.def_to_refs@) =~= refs_view(old(self).def_to_refs@).insert(
                    def_id,
                    old(self)@.refs_of(def_id).push(self.ref_counter),
                ));
                Some((def_id, self.ref_counter))
            },
            None => None,
        }
    }

    /// Numbers a definition without a label together with the one reference
    /// to it, and returns both numbers.
    pub fn add_inline_def(&mut self) -> (r: (usize, usize))
        requires
            old(self).wf(),
            old(self)@.def_counter < usize::MAX,
            old(self)@.ref_counter < usize::MAX,
        ensures
            final(self).wf(),
            r.0 == old(self)@.def_counter + 1,
            r.1 == old(self)@.ref_counter + 1,
            final(self)@ == (FootnoteMapView {
                def_counter: r.0 as nat,
                ref_counter: r.1 as nat,
                def_to_refs: old(self)@.def_to_refs.insert(r.0, seq![r.1]),
                ..old(self)@
            }),
    {
        self.def_counter += 1;
        self.ref_counter += 1;
        let mut refs: Vec<usize> = Vec::new();
        refs.push(self.ref_counter);
        self.def_to_refs.insert(self.def_counter, refs);
        assert(refs_view(self.def_to_refs@) =~= refs_view(old(self).def_to_refs@).insert(
            self.def_counter,
            seq![self.ref_counter],
        ));
        (self.def_counter, self.ref_counter)
    }

    /// The numbers of all references to the definition `def_id`, oldest
    /// first.
    pub fn referenced_by(&self, def_id: usize) -> (r: Vec<usize>)
        ensures
            r@ == self@.refs_of(def_id),
    {
        match self.def_to_refs.get(&def_id) {
            Some(ids) => ids.clone(),
            None => Vec::new(),
        }
    }
}

} // verus!
