//! From source text to the screen: rendering a diagram given as text, and
//! the state of the interactive viewer (what it shows, where it is panned,
//! and what each key does).
use vstd::prelude::*;
use std::path::PathBuf;
use crate::markdown::{extract_mermaid_blocks, mermaid_blocks};
use crate::parser::{parse_mermaid, parse_panics, parse_would_panic, spec_parse};
use crate::renderer::{diagram_colors_ok, diagram_fits, diagram_text, render_ascii, try_render_ascii};
use crate::color::{decimal, push_decimal};
use crate::text::{contains, contains_exec, to_chars, trim, trim_chars};

verus! {

/// `std::path::PathBuf`, declared as an opaque type: the viewer only keeps
/// the path it was given and hands it back; nothing is claimed of its
/// contents.
#[verifier::external_type_specification]
#[verifier::external_body]
pub struct ExPathBuf(std::path::PathBuf);

// ---------------------------------------------------------------------------
// Rendering a diagram given as text
// ---------------------------------------------------------------------------

/// What rendering a text gives: the rendering of the diagram it parses to,
/// or the parser's error.
pub open spec fn render_result(input: Seq<char>) -> Result<Seq<char>, Seq<char>> {
    match spec_parse(input) {
        Ok(d) => Ok(diagram_text(d)),
        Err(e) => Err(e),
    }
}

/// Whether parsing and rendering a text run to their end: the parser does not
/// slice a node text out of order, and the parsed diagram's colour words can
/// be read and its widths fit.
pub open spec fn renders_cleanly(input: Seq<char>) -> bool {
    &&& !parse_panics(input)
    &&& match spec_parse(input) {
        Ok(d) => diagram_fits(d) && diagram_colors_ok(d),
        Err(_) => true,
    }
}

pub open spec fn string_result_view(r: Result<String, String>) -> Result<Seq<char>, Seq<char>> {
    match r {
        Ok(s) => Ok(s@),
        Err(e) => Err(e@),
    }
}

/// Parses a Mermaid text and renders the diagram.
pub fn render_diagram_str(input: &str) -> (r: Result<String, String>)
    requires
        renders_cleanly(input@),
    ensures
        string_result_view(r) == render_result(input@),
{
    match parse_mermaid(input) {
        Ok(d) => Ok(render_ascii(&d)),
        Err(e) => Err(e),
    }
}

/// Parses a Mermaid text and renders the diagram, or gives `None` where
/// parsing or rendering would abort.
pub fn try_render_diagram_str(input: &str) -> (r: Option<Result<String, String>>)
    ensures
        r is None <==> !renders_cleanly(input@),
        r matches Some(x) ==> string_result_view(x) == render_result(input@),
{
    if parse_would_panic(input) {
        return None;
    }
    match parse_mermaid(input) {
        Ok(d) => match try_render_ascii(&d) {
            Some(s) => Some(Ok(s)),
            None => None,
        },
        Err(e) => Some(Err(e)),
    }
}

/// Whether a text holds nothing but whitespace (such input is refused).
pub fn is_blank(content: &str) -> (b: bool)
    ensures
        b == (trim(content@).len() == 0),
{
    trim_chars(&to_chars(content)).len() == 0
}

/// Whether a text holds a mermaid fence, and so is read as Markdown.
pub fn has_mermaid_fence(content: &str) -> (b: bool)
    ensures
        b == contains(content@, "```mermaid"@),
{
    contains_exec(&to_chars(content), &to_chars("```mermaid"))
}

/// A line of the report printed for the diagrams of a Markdown document:
/// to standard output, or to standard error.
#[derive(Debug, Clone, PartialEq, Eq)]
pub enum ReportLine {
    Stdout(String),
    Stderr(String),
}

pub enum SpecReportLine {
    Stdout(Seq<char>),
    Stderr(Seq<char>),
}

pub open spec fn report_view(v: Seq<ReportLine>) -> Seq<SpecReportLine> {
    v.map_values(
        |l: ReportLine|
            match l {
                ReportLine::Stdout(s) => SpecReportLine::Stdout(s@),
                ReportLine::Stderr(s) => SpecReportLine::Stderr(s@),
            },
    )
}

/// The report for the `index`-th (from 0) of `count` diagrams: a heading
/// `--- Diagram #n ---` when there is more than one, then the rendering, or
/// `Diagram #n Parse error: …` on standard error; `n` counts from 1.
pub open spec fn block_report_lines(index: nat, count: nat, block: Seq<char>) -> Seq<SpecReportLine> {
    let n = decimal(index + 1);
    (if count > 1 {
        seq![SpecReportLine::Stdout("--- Diagram #"@ + n + " ---"@)]
    } else {
        seq![]
    }) + match render_result(block) {
        Ok(text) => seq![SpecReportLine::Stdout(text)],
        Err(e) => seq![SpecReportLine::Stderr("Diagram #"@ + n + " Parse error: "@ + e)],
    }
}

/// Renders the `index`-th of `count` diagrams of a document into its report
/// lines, or gives `None` where parsing or rendering it would abort.
pub fn block_report(index: usize, count: usize, block: &str) -> (r: Option<Vec<ReportLine>>)
    requires
        index < count,
    ensures
        r is None <==> !renders_cleanly(block@),
        r matches Some(v) ==> report_view(v@) == block_report_lines(index as nat, count as nat, block@),
{
    let rendered = match try_render_diagram_str(block) {
        None => return None,
        Some(x) => x,
    };
    let mut lines: Vec<ReportLine> = Vec::new();
    if count > 1 {
        let mut h = "--- Diagram #".to_owned();
        push_decimal(&mut h, index + 1);
        h.append(" ---");
        lines.push(ReportLine::Stdout(h));
    }
    match rendered {
        Ok(text) => lines.push(ReportLine::Stdout(text)),
        Err(e) => {
            let mut m = "Diagram #".to_owned();
            push_decimal(&mut m, index + 1);
            m.append(" Parse error: ");
            m.append(e.as_str());
            lines.push(ReportLine::Stderr(m));
        },
    }
    assert(report_view(lines@) =~= block_report_lines(index as nat, count as nat, block@));
    Some(lines)
}

// ---------------------------------------------------------------------------
// The interactive viewer
// ---------------------------------------------------------------------------

/// The diagram text a document holds: in a Markdown document (one with a
/// mermaid fence), its first diagram, that is its first closed mermaid fence
/// that is not blank; else, and where there is no such fence, the whole text.
pub open spec fn diagram_source(content: Seq<char>) -> Seq<char> {
    if contains(content, "```mermaid"@) && mermaid_blocks(content).len() > 0 {
        mermaid_blocks(content)[0]
    } else {
        content
    }
}

/// What the viewer holds, apart from the path it watches.
pub struct ViewState {
    pub raw: Seq<char>,
    pub rendered: Seq<char>,
    pub scroll_x: u16,
    pub scroll_y: u16,
    pub error: Option<Seq<char>>,
}

/// The state after rendering the document anew: on success the new
/// rendering and no error; on a parse error the error, the previous
/// rendering kept.
pub open spec fn recomputed(st: ViewState) -> ViewState {
    match render_result(diagram_source(st.raw)) {
        Ok(text) => ViewState {
            raw: st.raw,
            rendered: text,
            scroll_x: st.scroll_x,
            scroll_y: st.scroll_y,
            error: None,
        },
        Err(e) => ViewState {
            raw: st.raw,
            rendered: st.rendered,
            scroll_x: st.scroll_x,
            scroll_y: st.scroll_y,
            error: Some(e),
        },
    }
}

/// The state with the document's text replaced.
pub open spec fn with_raw(st: ViewState, raw: Seq<char>) -> ViewState {
    ViewState { raw, rendered: st.rendered, scroll_x: st.scroll_x, scroll_y: st.scroll_y, error: st.error }
}

/// The interactive viewer's state.
pub struct TuiApp {
    file_path: Option<PathBuf>,
    raw_content: String,
    rendered_diagram: String,
    scroll_x: u16,
    scroll_y: u16,
    error_msg: Option<String>,
}

impl View for TuiApp {
    type V = ViewState;

    closed spec fn view(&self) -> ViewState {
        ViewState {
            raw: self.raw_content@,
            rendered: self.rendered_diagram@,
            scroll_x: self.scroll_x,
            scroll_y: self.scroll_y,
            error: match self.error_msg {
                Some(e) => Some(e@),
                None => None,
            },
        }
    }
}

/// A key as the viewer reads it.
#[derive(Debug, Clone, Copy, PartialEq, Eq, Structural)]
pub enum Key {
    Char(char),
    Left,
    Right,
    Up,
    Down,
    Esc,
    Other,
}

/// What the viewer's loop does after a key.
#[derive(Debug, Clone, Copy, PartialEq, Eq, Structural)]
pub enum KeyAction {
    Quit,
    Reload,
    Stay,
}

/// A change to the watched file, as the viewer reads the watcher's report.
#[derive(Debug, Clone, Copy, PartialEq, Eq, Structural)]
pub enum FileChange {
    Created,
    Modified,
    Other,
}

/// The viewer reloads after the file was created or modified, and after no
/// other change.
pub open spec fn reloads_after(change: FileChange) -> bool {
    change == FileChange::Created || change == FileChange::Modified
}

/// Whether a reported change makes the viewer reload the file.
pub fn should_reload(change: FileChange) -> (b: bool)
    ensures
        b == reloads_after(change),
{
    match change {
        FileChange::Created | FileChange::Modified => true,
        FileChange::Other => false,
    }
}

/// `a - b`, or 0 where that is negative.
pub open spec fn sat_sub(a: u16, b: u16) -> u16 {
    if a >= b {
        (a - b) as u16
    } else {
        0
    }
}

/// `a + b`, or the largest `u16` where that is larger.
pub open spec fn sat_add(a: u16, b: u16) -> u16 {
    if a + b <= u16::MAX {
        (a + b) as u16
    } else {
        u16::MAX
    }
}

/// What a key does: `q`, Esc and Ctrl-C quit, `r` reloads, the rest stay.
pub open spec fn key_action(key: Key, ctrl: bool) -> KeyAction {
    match key {
        Key::Char('q') | Key::Esc => KeyAction::Quit,
        Key::Char('c') if ctrl => KeyAction::Quit,
        Key::Char('r') => KeyAction::Reload,
        _ => KeyAction::Stay,
    }
}

/// Where a key pans the view: `h`/Left and `l`/Right by 4 columns, `k`/Up
/// and `j`/Down by 2 rows, each stopping at the ends of a `u16`; `0` goes
/// back to the origin.
pub open spec fn key_scroll(key: Key, ctrl: bool, x: u16, y: u16) -> (u16, u16) {
    match key {
        Key::Char('q') | Key::Esc => (x, y),
        Key::Char('c') if ctrl => (x, y),
        Key::Char('h') | Key::Left => (sat_sub(x, 4), y),
        Key::Char('l') | Key::Right => (sat_add(x, 4), y),
        Key::Char('j') | Key::Down => (x, sat_add(y, 2)),
        Key::Char('k') | Key::Up => (x, sat_sub(y, 2)),
        Key::Char('0') => (0, 0),
        _ => (x, y),
    }
}

impl TuiApp {
    /// The path the viewer watches, if any.
    pub closed spec fn path(&self) -> Option<PathBuf> {
        self.file_path
    }

    /// Makes a viewer for a document and renders it.
    pub fn new(file_path: Option<PathBuf>, initial_content: String) -> (app: Self)
        requires
            renders_cleanly(diagram_source(initial_content@)),
        ensures
            app@ == recomputed(
                ViewState { raw: initial_content@, rendered: seq![], scroll_x: 0, scroll_y: 0, error: None },
            ),
            app.path() == file_path,
    {
        let mut app = Self {
            file_path,
            raw_content: initial_content,
            rendered_diagram: String::new(),
            scroll_x: 0,
            scroll_y: 0,
            error_msg: None,
        };
        app.recompute();
        app
    }

    /// Makes a viewer for a document, or gives `None` where rendering the
    /// document would abort.
    pub fn try_new(file_path: Option<PathBuf>, initial_content: String) -> (app: Option<Self>)
        ensures
            app is None <==> !renders_cleanly(diagram_source(initial_content@)),
            app matches Some(a) ==> a@ == recomputed(
                ViewState { raw: initial_content@, rendered: seq![], scroll_x: 0, scroll_y: 0, error: None },
            ) && a.path() == file_path,
    {
        let src = source_text(initial_content.as_str());
        match try_render_diagram_str(src.as_str()) {
            None => None,
            Some(_) => Some(Self::new(file_path, initial_content)),
        }
    }

    /// Renders the document anew; a parse error is kept beside the previous
    /// rendering.
    pub fn recompute(&mut self)
        requires
            renders_cleanly(diagram_source(old(self)@.raw)),
        ensures
            final(self)@ == recomputed(old(self)@),
            final(self).path() == old(self).path(),
    {
        let src = source_text(self.raw_content.as_str());
        match render_diagram_str(src.as_str()) {
            Ok(text) => {
                self.rendered_diagram = text;
                self.error_msg = None;
            },
            Err(e) => {
                self.error_msg = Some(e);
            },
        }
    }

    /// Renders the document anew where that runs to its end; gives whether
    /// it did (the state is left as it was where it did not).
    pub fn try_recompute(&mut self) -> (done: bool)
        ensures
            done <==> renders_cleanly(diagram_source(old(self)@.raw)),
            done ==> final(self)@ == recomputed(old(self)@),
            !done ==> final(self)@ == old(self)@,
            final(self).path() == old(self).path(),
    {
        let src = source_text(self.raw_content.as_str());
        match try_render_diagram_str(src.as_str()) {
            None => false,
            Some(_) => {
                self.recompute();
                true
            },
        }
    }

    /// Takes a new text of the document (read anew from its file) and
    /// renders it.
    pub fn replace_content(&mut self, content: String)
        requires
            renders_cleanly(diagram_source(content@)),
        ensures
            final(self)@ == recomputed(with_raw(old(self)@, content@)),
            final(self).path() == old(self).path(),
    {
        self.raw_content = content;
        self.recompute();
    }

    /// Takes a new text of the document where rendering it runs to its end;
    /// gives whether it did (the state is left as it was where it did not).
    pub fn try_replace_content(&mut self, content: String) -> (done: bool)
        ensures
            done <==> renders_cleanly(diagram_source(content@)),
            done ==> final(self)@ == recomputed(with_raw(old(self)@, content@)),
            !done ==> final(self)@ == old(self)@,
            final(self).path() == old(self).path(),
    {
        let src = source_text(content.as_str());
        match try_render_diagram_str(src.as_str()) {
            None => false,
            Some(_) => {
                self.replace_content(content);
                true
            },
        }
    }

    /// Applies a key: pans the view as `key_scroll` says and tells the loop
    /// what to do next. The document and its rendering are left as they are.
    pub fn handle_key(&mut self, key: Key, ctrl: bool) -> (action: KeyAction)
        ensures
            action == key_action(key, ctrl),
            (final(self)@.scroll_x, final(self)@.scroll_y) == key_scroll(
                key,
                ctrl,
                old(self)@.scroll_x,
                old(self)@.scroll_y,
            ),
            final(self)@.raw == old(self)@.raw,
            final(self)@.rendered == old(self)@.rendered,
            final(self)@.error == old(self)@.error,
            final(self).path() == old(self).path(),
    {
        match key {
            Key::Char('q') | Key::Esc => KeyAction::Quit,
            Key::Char('c') if ctrl => KeyAction::Quit,
            Key::Char('h') | Key::Left => {
                self.scroll_x = self.scroll_x.saturating_sub(4);
                KeyAction::Stay
            },
            Key::Char('l') | Key::Right => {
                self.scroll_x = self.scroll_x.saturating_add(4);
                KeyAction::Stay
            },
            Key::Char('j') | Key::Down => {
                self.scroll_y = self.scroll_y.saturating_add(2);
                KeyAction::Stay
            },
            Key::Char('k') | Key::Up => {
                self.scroll_y = self.scroll_y.saturating_sub(2);
                KeyAction::Stay
            },
            Key::Char('0') => {
                self.scroll_x = 0;
                self.scroll_y = 0;
                KeyAction::Stay
            },
            Key::Char('r') => KeyAction::Reload,
            _ => KeyAction::Stay,
        }
    }

    /// The path the viewer watches.
    pub fn file_path(&self) -> (p: &Option<PathBuf>)
        ensures
            *p == self.path(),
    {
        &self.file_path
    }

    /// The document's text.
    pub fn raw_content(&self) -> (s: &String)
        ensures
            s@ == self@.raw,
    {
        &self.raw_content
    }

    /// The last rendering.
    pub fn rendered_diagram(&self) -> (s: &String)
        ensures
            s@ == self@.rendered,
    {
        &self.rendered_diagram
    }

    /// The last parse error, if the last rendering failed.
    pub fn error_msg(&self) -> (e: Option<String>)
        ensures
            (match e {
                Some(s) => self@.error == Some(s@),
                None => self@.error is None,
            }),
    {
        match &self.error_msg {
            Some(s) => Some(s.clone()),
            None => None,
        }
    }

    /// What the screen shows in place of the diagram when the last
    /// rendering failed: the error under a heading.
    pub fn error_text(&self) -> (t: Option<String>)
        ensures
            (match self@.error {
                Some(e) => t matches Some(s) && s@ == "Diagram Parse Error:\n"@ + e,
                None => t is None,
            }),
    {
        match &self.error_msg {
            Some(e) => {
                let mut s = "Diagram Parse Error:\n".to_owned();
                s.append(e.as_str());
                Some(s)
            },
            None => None,
        }
    }

    /// The position shown in the status line: ` (Pos: x, y) `.
    pub fn position_label(&self) -> (s: String)
        ensures
            s@ == " (Pos: "@ + decimal(self@.scroll_x as nat) + ", "@ + decimal(self@.scroll_y as nat) + ") "@,
    {
        let mut s = " (Pos: ".to_owned();
        push_decimal(&mut s, self.scroll_x as usize);
        s.append(", ");
        push_decimal(&mut s, self.scroll_y as usize);
        s.append(") ");
        s
    }

    pub fn scroll_x(&self) -> (x: u16)
        ensures
            x == self@.scroll_x,
    {
        self.scroll_x
    }

    pub fn scroll_y(&self) -> (y: u16)
        ensures
            y == self@.scroll_y,
    {
        self.scroll_y
    }
}

/// The diagram text of a document, computed.
fn source_text(content: &str) -> (s: String)
    ensures
        s@ == diagram_source(content@),
{
    if has_mermaid_fence(content) {
        let blocks = extract_mermaid_blocks(content);
        if blocks.len() > 0 {
            proof {
                assert(blocks@.map_values(|c: String| c@)[0] == blocks@[0]@);
            }
            return blocks[0].clone();
        }
    }
    content.to_owned()
}

// ---------------------------------------------------------------------------
// Laws
// ---------------------------------------------------------------------------

/// `0` brings the view back to the origin, wherever it was.
pub proof fn lemma_reset_key(ctrl: bool, x: u16, y: u16)
    ensures
        key_scroll(Key::Char('0'), ctrl, x, y) == (0u16, 0u16),
        key_action(Key::Char('0'), ctrl) == KeyAction::Stay,
{
}

/// Panning right then left, or down then up, comes back to where it was
/// unless the first step stopped at the largest `u16`; panning left then
/// right, or up then down, comes back unless the first stopped at 0.
pub proof fn lemma_pan_undo(ctrl: bool, x: u16, y: u16)
    ensures
        x + 4 <= u16::MAX ==> ({
            let (x1, y1) = key_scroll(Key::Char('l'), ctrl, x, y);
            key_scroll(Key::Char('h'), ctrl, x1, y1) == (x, y)
        }),
        x >= 4 ==> ({
            let (x1, y1) = key_scroll(Key::Left, ctrl, x, y);
            key_scroll(Key::Right, ctrl, x1, y1) == (x, y)
        }),
        y + 2 <= u16::MAX ==> ({
            let (x1, y1) = key_scroll(Key::Char('j'), ctrl, x, y);
            key_scroll(Key::Char('k'), ctrl, x1, y1) == (x, y)
        }),
        y >= 2 ==> ({
            let (x1, y1) = key_scroll(Key::Up, ctrl, x, y);
            key_scroll(Key::Down, ctrl, x1, y1) == (x, y)
        }),
{
}

/// Panning never leaves the range of a `u16`, and a pan key quits nothing
/// and reloads nothing.
pub proof fn lemma_pan_keys_stay(key: Key, ctrl: bool)
    requires
        key == Key::Left || key == Key::Right || key == Key::Up || key == Key::Down || key == Key::Char('h')
            || key == Key::Char('j') || key == Key::Char('k') || key == Key::Char('l'),
    ensures
        key_action(key, ctrl) == KeyAction::Stay,
{
}

/// A text that does not parse leaves the last rendering on screen, beside
/// the error.
pub proof fn lemma_error_keeps_rendering(st: ViewState)
    requires
        render_result(diagram_source(st.raw)) is Err,
    ensures
        recomputed(st).rendered == st.rendered,
        recomputed(st).error == Some(render_result(diagram_source(st.raw))->Err_0),
        recomputed(st).raw == st.raw,
{
}

/// Rendering anew a second time changes nothing.
pub proof fn lemma_recompute_idempotent(st: ViewState)
    ensures
        recomputed(recomputed(st)) == recomputed(st),
{
}

} // verus!
