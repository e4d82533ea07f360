//! Styled text: what a screen shows, before it is put on a terminal.

use vstd::prelude::*;
use vstd::string::*;

verus! {

/// How a piece of text looks. Colors are packed as `0xRRGGBB`.
#[derive(Debug, Clone, Copy, PartialEq, Eq, Structural)]
pub struct Style {
    pub fg: Option<u32>,
    pub bg: Option<u32>,
    pub bold: bool,
    pub italic: bool,
}

/// Text in the color around it.
pub open spec fn unstyled() -> Style {
    Style { fg: None, bg: None, bold: false, italic: false }
}

/// Text in a color.
pub open spec fn in_color(color: u32) -> Style {
    Style { fg: Some(color), bg: None, bold: false, italic: false }
}

/// Bold text in a color.
pub open spec fn in_bold(color: u32) -> Style {
    Style { fg: Some(color), bg: None, bold: true, italic: false }
}

/// Italic text in a color.
pub open spec fn in_italics(color: u32) -> Style {
    Style { fg: Some(color), bg: None, bold: false, italic: true }
}

/// Bold text in a color on a background.
pub open spec fn in_bold_on(color: u32, back: u32) -> Style {
    Style { fg: Some(color), bg: Some(back), bold: true, italic: false }
}

/// A piece of text in one style.
#[derive(Debug)]
pub struct Span {
    pub text: String,
    pub style: Style,
}

/// What a [`Span`] shows.
pub struct Run {
    pub text: Seq<char>,
    pub style: Style,
}

impl View for Span {
    type V = Run;

    open spec fn view(&self) -> Run {
        Run { text: self.text@, style: self.style }
    }
}

/// A piece of text in a style.
pub open spec fn run(text: Seq<char>, style: Style) -> Run {
    Run { text, style }
}

/// One line: its pieces from left to right.
#[derive(Debug)]
pub struct Line {
    pub spans: Vec<Span>,
}

impl View for Line {
    type V = Seq<Run>;

    open spec fn view(&self) -> Seq<Run> {
        self.spans@.map_values(|s: Span| s@)
    }
}

/// What the lines of a list show.
pub open spec fn shown(lines: Seq<Line>) -> Seq<Seq<Run>> {
    lines.map_values(|l: Line| l@)
}

/// A line without text.
pub open spec fn blank_line() -> Seq<Run> {
    seq![run(""@, unstyled())]
}

/// Text in the color around it.
pub fn raw(text: &str) -> (res: Span)
    ensures
        res@ == run(text@, unstyled()),
{
    Span {
        text: text.to_owned(),
        style: Style { fg: None, bg: None, bold: false, italic: false },
    }
}

/// Text in a color.
pub fn colored(text: &str, color: u32) -> (res: Span)
    ensures
        res@ == run(text@, in_color(color)),
{
    Span {
        text: text.to_owned(),
        style: Style { fg: Some(color), bg: None, bold: false, italic: false },
    }
}

/// Bold text in a color.
pub fn bold(text: &str, color: u32) -> (res: Span)
    ensures
        res@ == run(text@, in_bold(color)),
{
    Span {
        text: text.to_owned(),
        style: Style { fg: Some(color), bg: None, bold: true, italic: false },
    }
}

/// Italic text in a color.
pub fn italic(text: &str, color: u32) -> (res: Span)
    ensures
        res@ == run(text@, in_italics(color)),
{
    Span {
        text: text.to_owned(),
        style: Style { fg: Some(color), bg: None, bold: false, italic: true },
    }
}

/// Bold text in a color on a background.
pub fn bold_on(text: &str, color: u32, back: u32) -> (res: Span)
    ensures
        res@ == run(text@, in_bold_on(color, back)),
{
    Span {
        text: text.to_owned(),
        style: Style { fg: Some(color), bg: Some(back), bold: true, italic: false },
    }
}

/// A line of one piece.
pub fn line1(a: Span) -> (res: Line)
    ensures
        res@ == seq![a@],
{
    let mut spans: Vec<Span> = Vec::new();
    spans.push(a);
    let res = Line { spans };
    assert(res@ =~= seq![a@]);
    res
}

/// A line of two pieces.
pub fn line2(a: Span, b: Span) -> (res: Line)
    ensures
        res@ == seq![a@, b@],
{
    let mut spans: Vec<Span> = Vec::new();
    spans.push(a);
    spans.push(b);
    let res = Line { spans };
    assert(res@ =~= seq![a@, b@]);
    res
}

/// A line of three pieces.
pub fn line3(a: Span, b: Span, c: Span) -> (res: Line)
    ensures
        res@ == seq![a@, b@, c@],
{
    let mut spans: Vec<Span> = Vec::new();
    spans.push(a);
    spans.push(b);
    spans.push(c);
    let res = Line { spans };
    assert(res@ =~= seq![a@, b@, c@]);
    res
}

/// A line without text.
pub fn blank() -> (res: Line)
    ensures
        res@ == blank_line(),
{
    line1(raw(""))
}

impl Line {
    /// Add a piece at the end of the line.
    pub fn push(&mut self, s: Span)
        ensures
            final(self)@ == old(self)@.push(s@),
    {
        let ghost before = self@;
        self.spans.push(s);
        assert(self@ =~= before.push(s@));
    }
}

/// The lines of a screen, in the making.
#[derive(Debug)]
pub struct Lines {
    pub lines: Vec<Line>,
}

impl View for Lines {
    type V = Seq<Seq<Run>>;

    open spec fn view(&self) -> Seq<Seq<Run>> {
        shown(self.lines@)
    }
}

impl Lines {
    /// No lines.
    pub fn new() -> (res: Lines)
        ensures
            res@ == Seq::<Seq<Run>>::empty(),
    {
        let res = Lines { lines: Vec::new() };
        assert(res@ =~= Seq::<Seq<Run>>::empty());
        res
    }

    /// Add a line at the end.
    pub fn push(&mut self, line: Line)
        ensures
            final(self)@ == old(self)@.push(line@),
    {
        let ghost before = self@;
        self.lines.push(line);
        assert(self@ =~= before.push(line@));
    }

    /// Add lines at the end.
    pub fn append(&mut self, other: Lines)
        ensures
            final(self)@ == old(self)@ + other@,
    {
        let ghost before = self@;
        let mut rest = other;
        let ghost all = rest@;
        self.lines.append(&mut rest.lines);
        assert(self@ =~= before + all);
    }

    /// How many lines there are.
    pub fn len(&self) -> (res: usize)
        ensures
            res == self@.len(),
    {
        self.lines.len()
    }
}

/// A rectangle of the terminal, in cells.
#[derive(Debug, Clone, Copy, PartialEq, Eq, Structural)]
pub struct Area {
    pub x: u16,
    pub y: u16,
    pub width: u16,
    pub height: u16,
}

/// What is cut off or left free on one side when a length is centered in another.
pub open spec fn margin(outer: u16, inner: u16) -> int {
    if inner < outer {
        (outer - inner) / 2
    } else {
        0
    }
}

/// A rectangle of the given size in the middle of `area`, cut down to fit into it.
pub fn centered(area: Area, width: u16, height: u16) -> (res: Area)
    requires
        area.x + area.width <= u16::MAX,
        area.y + area.height <= u16::MAX,
    ensures
        res.width == if width < area.width {
            width
        } else {
            area.width
        },
        res.height == if height < area.height {
            height
        } else {
            area.height
        },
        res.x == area.x + margin(area.width, width),
        res.y == area.y + margin(area.height, height),
{
    let w: u16 = if width < area.width {
        width
    } else {
        area.width
    };
    let h: u16 = if height < area.height {
        height
    } else {
        area.height
    };
    Area {
        x: area.x + (area.width - w) / 2,
        y: area.y + (area.height - h) / 2,
        width: w,
        height: h,
    }
}

} // verus!
