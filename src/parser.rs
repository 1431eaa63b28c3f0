//! A session: lines taken in order, grouped by their structural commands,
//! and searched.

use vstd::prelude::*;

use crate::text::{lines_of, split_lines};

use crate::element::nodes_of;
use crate::line::{
    ascii_lowered, ascii_text, built, highlighted_tree, lower_of, same_but_group, sat, match_count, Command, Group, Line,
};

verus! {

/// The lines of a session, the number the next line gets, and the current
/// search term, lowercased.
#[derive(Debug)]
pub struct Parser {
    pub idx: usize,
    pub lines: Vec<Line>,
    pub search: String,
}

/// Whether the last line holds a group that is still open.
pub open spec fn in_group_spec(lines: Seq<Line>) -> bool {
    lines.len() > 0 && lines.last().group is Some && !lines.last().group->0.ended
}

/// `n` is `o` with its group, if any, closed.
pub open spec fn closed(n: Line, o: Line) -> bool {
    &&& same_but_group(n, o)
    &&& match o.group {
        None => n.group is None,
        Some(g) => n.group == Some(Group { ended: true, ..g }),
    }
}

/// `n` is `o` with its last line's group, if any, closed.
pub open spec fn last_closed(n: Seq<Line>, o: Seq<Line>) -> bool {
    &&& n.len() == o.len()
    &&& forall|i: int| 0 <= i < o.len() - 1 ==> n[i] == o[i]
    &&& o.len() > 0 ==> closed(n.last(), o.last())
}

/// `n` is `o` with a group opened, unless it has one.
pub open spec fn opened(n: Line, o: Line) -> bool {
    &&& same_but_group(n, o)
    &&& match o.group {
        None => n.group is Some && n.group->0.children@.len() == 0 && !n.group->0.ended,
        Some(_) => n.group == o.group,
    }
}

/// `n` is `o` with `c` added to its group.
pub open spec fn child_added(n: Line, o: Line, c: Line) -> bool {
    &&& same_but_group(n, o)
    &&& n.group is Some
    &&& match o.group {
        None => n.group->0.children@ == seq![c] && !n.group->0.ended,
        Some(g) => n.group->0.children@ == g.children@.push(c) && n.group->0.ended == g.ended,
    }
}

/// The top-level lines `n` after line `l` is taken into `o`: an `EndGroup`
/// closes an open group and is dropped, or else stays as a line; a `Group`
/// closes the last group and opens its own; any other line joins the open
/// group, or else stands at the top.
pub open spec fn pushed(n: Seq<Line>, o: Seq<Line>, l: Line) -> bool {
    match l.cmd {
        Some(Command::EndGroup) => if in_group_spec(o) {
            last_closed(n, o)
        } else {
            n == o.push(l)
        },
        Some(Command::Group) => {
            &&& n.len() == o.len() + 1
            &&& last_closed(n.take(o.len() as int), o)
            &&& opened(n.last(), l)
        },
        _ => if in_group_spec(o) {
            &&& n.len() == o.len()
            &&& forall|i: int| 0 <= i < o.len() - 1 ==> n[i] == o[i]
            &&& child_added(n.last(), o.last(), l)
        } else {
            n == o.push(l)
        },
    }
}

/// `l` is line `number` built from `raw` with `id`, then highlighted for
/// `search` where that is not empty.
pub open spec fn fresh_line(l: Line, number: usize, id: Option<Seq<char>>, raw: Seq<char>, search: Seq<char>) -> bool {
    exists|l0: Line|
        #![trigger built(l0, number, id, raw, l0.ts)]
        built(l0, number, id, raw, l0.ts) && if search.len() == 0 {
            l == l0
        } else {
            highlighted_tree(l, l0, search)
        }
}

/// `states` are the top-level lines before and after each of the lines
/// `ls`, built from `raws` and numbered from 1, are taken in turn into an
/// empty session searching for `search`.
pub open spec fn ingested(
    states: Seq<Seq<Line>>,
    ls: Seq<Line>,
    raws: Seq<Seq<char>>,
    search: Seq<char>,
) -> bool {
    &&& states.len() == raws.len() + 1
    &&& ls.len() == raws.len()
    &&& states[0].len() == 0
    &&& forall|k: int|
        0 <= k < raws.len() ==> {
            &&& fresh_line(#[trigger] ls[k], sat((k + 1) as nat), None, raws[k], search)
            &&& pushed(states[k + 1], states[k], ls[k])
        }
}

/// An `EndGroup` line while no group is open stays as a top-level line.
pub proof fn unmatched_endgroup_is_kept(n: Seq<Line>, o: Seq<Line>, l: Line)
    requires
        pushed(n, o, l),
        l.cmd == Some(Command::EndGroup),
        !in_group_spec(o),
    ensures
        n == o.push(l),
{
}

/// Groups do not nest: a `Group` line closes the group of the last line and
/// stands at the top, holding an open group of its own.
pub proof fn group_closes_previous(n: Seq<Line>, o: Seq<Line>, l: Line)
    requires
        pushed(n, o, l),
        l.cmd == Some(Command::Group),
        l.group is None,
    ensures
        n.len() == o.len() + 1,
        o.len() > 0 && o.last().group is Some ==> n[o.len() - 1].group->0.ended,
        !in_group_spec(n.take(o.len() as int)),
        in_group_spec(n),
        n.last().group->0.children@.len() == 0,
{
    if o.len() > 0 {
        assert(n.take(o.len() as int).last() == n[o.len() - 1]);
    }
}

/// Two lines highlighted from one line for one term agree in highlights and
/// render tree, and so do the lines of their groups.
pub proof fn same_term_same_highlights(n1: Line, n2: Line, o: Line, t: Seq<char>)
    requires
        highlighted_tree(n1, o, t),
        highlighted_tree(n2, o, t),
    ensures
        n1.highlights@ == n2.highlights@,
        nodes_of(n1.elements@) == nodes_of(n2.elements@),
        n1.group is Some ==> n2.group is Some && n1.group->0.children@.len() == n2.group->0.children@.len()
            && forall|i: int|
            0 <= i < n1.group->0.children@.len() ==> {
                &&& (#[trigger] n1.group->0.children@[i]).highlights@ == n2.group->0.children@[i].highlights@
                &&& nodes_of(n1.group->0.children@[i].elements@) == nodes_of(
                    n2.group->0.children@[i].elements@,
                )
            },
{
    assert(crate::element::annotated(&n1) == crate::element::annotated(&n2));
    if n1.group is Some {
        assert forall|i: int| 0 <= i < n1.group->0.children@.len() implies {
            &&& (#[trigger] n1.group->0.children@[i]).highlights@ == n2.group->0.children@[i].highlights@
            &&& nodes_of(n1.group->0.children@[i].elements@) == nodes_of(
                n2.group->0.children@[i].elements@,
            )
        } by {
            assert(crate::element::annotated(&n1.group->0.children@[i]) == crate::element::annotated(
                &n2.group->0.children@[i],
            ));
        }
    }
}

/// Searching a session for two ASCII terms that differ only in the case of
/// their letters stores one search term and gives every line the same
/// highlights and render tree.
pub proof fn search_ignores_ascii_case(
    o: Seq<Line>,
    n1: Seq<Line>,
    n2: Seq<Line>,
    s1: Seq<char>,
    s2: Seq<char>,
    t1: Seq<char>,
    t2: Seq<char>,
)
    requires
        ascii_text(t1),
        ascii_text(t2),
        ascii_lowered(t1) == ascii_lowered(t2),
        s1 == ascii_lowered(t1),
        s2 == ascii_lowered(t2),
        n1.len() == o.len(),
        n2.len() == o.len(),
        forall|i: int| 0 <= i < o.len() ==> highlighted_tree(#[trigger] n1[i], o[i], s1),
        forall|i: int| 0 <= i < o.len() ==> highlighted_tree(#[trigger] n2[i], o[i], s2),
    ensures
        s1 == s2,
        forall|i: int|
            0 <= i < o.len() ==> (#[trigger] n1[i]).highlights@ == n2[i].highlights@ && nodes_of(
                n1[i].elements@,
            ) == nodes_of(n2[i].elements@),
{
    assert forall|i: int| 0 <= i < o.len() implies (#[trigger] n1[i]).highlights@ == n2[i].highlights@
        && nodes_of(n1[i].elements@) == nodes_of(n2[i].elements@) by {
        same_term_same_highlights(n1[i], n2[i], o[i], s1);
    }
}

/// Sum of the match counts of `ls`.
pub open spec fn matches_total(ls: Seq<Line>) -> nat
    decreases ls.len(),
{
    if ls.len() == 0 {
        0
    } else {
        matches_total(ls.drop_last()) + match_count(ls.last())
    }
}

impl Parser {
    pub fn new() -> (r: Self)
        ensures
            r.idx == 1,
            r.lines@.len() == 0,
            r.search@.len() == 0,
    {
        Parser { idx: 1, lines: Vec::new(), search: String::new() }
    }

    fn reset(&mut self)
        ensures
            final(self).idx == 1,
            final(self).lines@.len() == 0,
            final(self).search == old(self).search,
    {
        self.lines.clear();
        self.idx = 1;
    }

    /// Closes the last line's group, if it has one.
    fn end_group(&mut self)
        ensures
            last_closed(final(self).lines@, old(self).lines@),
            final(self).idx == old(self).idx,
            final(self).search == old(self).search,
    {
        match self.lines.pop() {
            Some(last) => {
                let mut last = last;
                last.end_group();
                self.lines.push(last);
            },
            None => {},
        }
    }

    fn in_group(&self) -> (r: bool)
        ensures
            r == in_group_spec(self.lines@),
    {
        let n = self.lines.len();
        if n == 0 {
            return false;
        }
        match &self.lines[n - 1].group {
            Some(g) => !g.ended,
            None => false,
        }
    }

    /// Takes the built line `line` into the session and advances the line
    /// number.
    pub fn push_line(&mut self, line: Line)
        ensures
            pushed(final(self).lines@, old(self).lines@, line),
            final(self).idx == sat((old(self).idx + 1) as nat),
            final(self).search == old(self).search,
    {
        let mut line = line;
        match line.cmd {
            Some(Command::EndGroup) => {
                if self.in_group() {
                    self.end_group();
                } else {
                    self.lines.push(line);
                }
            },
            Some(Command::Group) => {
                self.end_group();
                let ghost closed_lines = self.lines@;
                line.start_group();
                self.lines.push(line);
                assert(self.lines@.take(closed_lines.len() as int) =~= closed_lines);
            },
            _ => {
                if self.in_group() {
                    let mut last = self.lines.pop().unwrap();
                    last.add_child(line);
                    self.lines.push(last);
                } else {
                    self.lines.push(line);
                }
            },
        }
        self.idx = self.idx.saturating_add(1);
    }

    /// Replaces the lines of the session by those of `raw`, numbered from 1,
    /// with the current search applied.
    pub fn set_raw(&mut self, raw: &str)
        ensures
            exists|states: Seq<Seq<Line>>, ls: Seq<Line>|
                #![trigger ingested(states, ls, lines_of(raw@), old(self).search@)]
                ingested(states, ls, lines_of(raw@), old(self).search@) && final(self).lines@
                    == states.last(),
            final(self).idx == sat((lines_of(raw@).len() + 1) as nat),
            final(self).search == old(self).search,
    {
        self.reset();
        let lines = split_lines(raw);
        let ghost raws = lines@.map_values(|l: String| l@);
        let ghost mut states: Seq<Seq<Line>> = seq![self.lines@];
        let ghost mut ls: Seq<Line> = Seq::empty();
        let mut k: usize = 0;
        while k < lines.len()
            invariant
                k <= lines@.len(),
                raws == lines@.map_values(|l: String| l@),
                raws == lines_of(raw@),
                self.search == old(self).search,
                self.idx == sat((k + 1) as nat),
                ingested(states, ls, raws.take(k as int), self.search@),
                self.lines@ == states.last(),
            decreases lines@.len() - k,
        {
            let ghost before = self.lines@;
            let ghost number = self.idx;
            let empty = "";
            proof {
                reveal_strlit("");
            }
            assert(empty@.len() == 0);
            self.add_line(empty, lines[k].as_str());
            let ghost l = choose|l: Line|
                fresh_line(l, number, None, lines@[k as int]@, self.search@) && pushed(
                    self.lines@,
                    before,
                    l,
                );
            proof {
                states = states.push(self.lines@);
                ls = ls.push(l);
                assert(raws.take(k + 1).drop_last() =~= raws.take(k as int));
                assert(raws[k as int] == lines@[k as int]@);
            }
            k = k + 1;
        }
        assert(raws.take(k as int) =~= raws);
    }

    /// Builds a line from `raw` with the id `id` (none where empty), applies
    /// the current search to it, and takes it into the session.
    pub fn add_line(&mut self, id: &str, raw: &str)
        ensures
            exists|l: Line|
                #![trigger pushed(final(self).lines@, old(self).lines@, l)]
                fresh_line(
                    l,
                    old(self).idx,
                    if id@.len() == 0 { None } else { Some(id@) },
                    raw@,
                    old(self).search@,
                ) && pushed(final(self).lines@, old(self).lines@, l),
            final(self).idx == sat((old(self).idx + 1) as nat),
            final(self).search == old(self).search,
    {
        let id = if id.is_empty() { None } else { Some(id) };
        let mut line = Line::new(self.idx, id, raw);
        let ghost l0 = line;
        if !self.search.as_str().is_empty() {
            line.highlight(self.search.as_str());
        }
        let ghost l = line;
        assert(built(l0, old(self).idx, crate::line::opt_view(id), raw@, l0.ts));
        self.push_line(line);
        assert(pushed(self.lines@, old(self).lines@, l));
    }

    /// Stores `search` lowercased as the search term and highlights every
    /// line for it.
    pub fn set_search(&mut self, search: &str)
        ensures
            final(self).search@ == lower_of(search@),
            search@.len() == 0 ==> final(self).search@.len() == 0,
            ascii_text(search@) ==> final(self).search@ == ascii_lowered(search@),
            final(self).idx == old(self).idx,
            final(self).lines@.len() == old(self).lines@.len(),
            forall|i: int|
                0 <= i < old(self).lines@.len() ==> highlighted_tree(
                    #[trigger] final(self).lines@[i],
                    old(self).lines@[i],
                    lower_of(search@),
                ),
    {
        self.search = crate::line::lowercase_text(search);
        let mut lines = Vec::new();
        core::mem::swap(&mut lines, &mut self.lines);
        let ghost old_lines = lines@;
        let mut done: Vec<Line> = Vec::new();
        while lines.len() > 0
            invariant
                old_lines == lines@ + done@.reverse(),
            decreases lines@.len(),
        {
            let c = lines.pop().unwrap();
            done.push(c);
            assert(old_lines =~= lines@ + done@.reverse());
        }
        let ghost total = done@.len();
        assert(done@.reverse() =~= old_lines);
        let mut out: Vec<Line> = Vec::new();
        while done.len() > 0
            invariant
                total == old_lines.len(),
                done@.len() + out@.len() == total,
                forall|i: int| 0 <= i < done@.len() ==> #[trigger] done@[i] == old_lines[total - 1 - i],
                forall|i: int|
                    0 <= i < out@.len() ==> highlighted_tree(
                        #[trigger] out@[i],
                        old_lines[i],
                        self.search@,
                    ),
            decreases done@.len(),
        {
            let mut c = done.pop().unwrap();
            c.highlight(self.search.as_str());
            out.push(c);
        }
        self.lines = out;
    }

    /// The number of highlights over all lines and their groups, or
    /// `usize::MAX` where that is larger.
    pub fn matches(&self) -> (r: usize)
        ensures
            r == sat(matches_total(self.lines@)),
    {
        let mut total: usize = 0;
        let mut k: usize = 0;
        assert(self.lines@.take(0) =~= Seq::<Line>::empty());
        while k < self.lines.len()
            invariant
                k <= self.lines@.len(),
                total == sat(matches_total(self.lines@.take(k as int))),
            decreases self.lines@.len() - k,
        {
            assert(self.lines@.take(k + 1).drop_last() =~= self.lines@.take(k as int));
            total = total.saturating_add(self.lines[k].matches());
            k = k + 1;
        }
        assert(self.lines@.take(k as int) =~= self.lines@);
        total
    }
}

} // verus!
