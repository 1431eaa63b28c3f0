//! The resolved rendering state at a point of a line.

use vstd::prelude::*;

use crate::ansi::ANSISequence;

verus! {

/// A colour: an index into the 256-colour palette, or a 24-bit RGB triple.
#[derive(Clone, Copy, Debug, PartialEq, Eq, Hash, Structural)]
pub enum Color {
    Bit8(u8),
    Bit24(u8, u8, u8),
}

/// The cumulative style at a point: the ANSI attributes seen so far, and
/// whether the text is a search match.
#[derive(Clone, Copy, Debug, PartialEq, Eq, Hash, Structural)]
pub struct Styles {
    pub bold: bool,
    pub italic: bool,
    pub underline: bool,
    pub highlight: bool,
    pub fg: Option<Color>,
    pub bg: Option<Color>,
}

/// No attribute set.
pub open spec fn plain() -> Styles {
    Styles { bold: false, italic: false, underline: false, highlight: false, fg: None, bg: None }
}

/// `s` after one event. A reset leaves `highlight` as it was.
pub open spec fn apply_spec(s: Styles, a: ANSISequence) -> Styles {
    match a {
        ANSISequence::Reset => Styles { bold: false, italic: false, underline: false, fg: None, bg: None, ..s },
        ANSISequence::Bold => Styles { bold: true, ..s },
        ANSISequence::Italic => Styles { italic: true, ..s },
        ANSISequence::Underline => Styles { underline: true, ..s },
        ANSISequence::NotBold => Styles { bold: false, ..s },
        ANSISequence::NotItalic => Styles { italic: false, ..s },
        ANSISequence::NotUnderline => Styles { underline: false, ..s },
        ANSISequence::SetFG8(c) => Styles { fg: Some(Color::Bit8(c)), ..s },
        ANSISequence::DefaultFG => Styles { fg: None, ..s },
        ANSISequence::SetBG8(c) => Styles { bg: Some(Color::Bit8(c)), ..s },
        ANSISequence::DefaultBG => Styles { bg: None, ..s },
        ANSISequence::SetFG24(r, g, b) => Styles { fg: Some(Color::Bit24(r, g, b)), ..s },
        ANSISequence::SetBG24(r, g, b) => Styles { bg: Some(Color::Bit24(r, g, b)), ..s },
    }
}

/// `s` after the events `es`, in order.
pub open spec fn apply_all(s: Styles, es: Seq<ANSISequence>) -> Styles
    decreases es.len(),
{
    if es.len() == 0 {
        s
    } else {
        apply_spec(apply_all(s, es.drop_last()), es.last())
    }
}

impl Styles {
    pub fn new() -> (r: Self)
        ensures
            r == plain(),
    {
        Styles { bold: false, italic: false, underline: false, highlight: false, fg: None, bg: None }
    }

    /// Whether no attribute is set.
    pub fn is_empty(&self) -> (r: bool)
        ensures
            r == (*self == plain()),
    {
        !self.bold && !self.italic && !self.underline && !self.highlight && self.fg.is_none()
            && self.bg.is_none()
    }

    /// Folds the events `ansis` into the style, in order.
    pub fn apply_ansis(&mut self, ansis: &Vec<ANSISequence>)
        ensures
            *final(self) == apply_all(*old(self), ansis@),
    {
        let mut i: usize = 0;
        while i < ansis.len()
            invariant
                i <= ansis@.len(),
                *self == apply_all(*old(self), ansis@.take(i as int)),
            decreases ansis@.len() - i,
        {
            assert(ansis@.take(i + 1).drop_last() =~= ansis@.take(i as int));
            self.apply_ansi(&ansis[i]);
            i = i + 1;
        }
        assert(ansis@.take(i as int) =~= ansis@);
    }

    /// Folds one event into the style.
    pub fn apply_ansi(&mut self, ansi: &ANSISequence)
        ensures
            *final(self) == apply_spec(*old(self), *ansi),
    {
        match ansi {
            ANSISequence::Reset => {
                self.bold = false;
                self.italic = false;
                self.underline = false;
                self.fg = None;
                self.bg = None;
            },
            ANSISequence::Bold => self.bold = true,
            ANSISequence::Italic => self.italic = true,
            ANSISequence::Underline => self.underline = true,
            ANSISequence::NotBold => self.bold = false,
            ANSISequence::NotItalic => self.italic = false,
            ANSISequence::NotUnderline => self.underline = false,
            ANSISequence::SetFG8(color) => self.fg = Some(Color::Bit8(*color)),
            ANSISequence::DefaultFG => self.fg = None,
            ANSISequence::SetBG8(color) => self.bg = Some(Color::Bit8(*color)),
            ANSISequence::DefaultBG => self.bg = None,
            ANSISequence::SetFG24(r, g, b) => self.fg = Some(Color::Bit24(*r, *g, *b)),
            ANSISequence::SetBG24(r, g, b) => self.bg = Some(Color::Bit24(*r, *g, *b)),
        }
    }
}

/// Style events never touch the highlight.
pub proof fn lemma_apply_all_keeps_highlight(s: Styles, es: Seq<ANSISequence>)
    ensures
        apply_all(s, es).highlight == s.highlight,
    decreases es.len(),
{
    if es.len() > 0 {
        lemma_apply_all_keeps_highlight(s, es.drop_last());
    }
}

/// Events act the same whatever the highlight is.
pub proof fn lemma_apply_all_highlight(s: Styles, b: bool, es: Seq<ANSISequence>)
    ensures
        apply_all(Styles { highlight: b, ..s }, es) == (Styles { highlight: b, ..apply_all(s, es) }),
    decreases es.len(),
{
    if es.len() > 0 {
        lemma_apply_all_highlight(s, b, es.drop_last());
    }
}

/// Applying two runs of events is applying them joined.
pub proof fn lemma_apply_all_concat(s: Styles, e1: Seq<ANSISequence>, e2: Seq<ANSISequence>)
    ensures
        apply_all(s, e1 + e2) == apply_all(apply_all(s, e1), e2),
    decreases e2.len(),
{
    if e2.len() == 0 {
        assert(e1 + e2 =~= e1);
    } else {
        assert((e1 + e2).drop_last() =~= e1 + e2.drop_last());
        lemma_apply_all_concat(s, e1, e2.drop_last());
    }
}

/// A reset clears every ANSI attribute and keeps a search highlight.
pub proof fn reset_keeps_highlight(s: Styles)
    ensures
        apply_spec(s, ANSISequence::Reset) == (Styles { highlight: s.highlight, ..plain() }),
{
}

} // verus!
