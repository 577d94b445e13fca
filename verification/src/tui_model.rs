//! The interactive assistant's state (the model of a model-update-view
//! loop), the messages that drive it and the side effects it asks for.

use vstd::prelude::*;

use crate::diff::DiffHunk;
use crate::fix::{edit_ops, edits_accepted, on_char_boundaries};
use crate::lint_result::LintResult;
use crate::rule::{LintError, LintErrorModel};
use crate::stats::DepsStats;
use crate::text::lowercase;
use vstd::utf8::encode_utf8;

verus! {

// ── Hit testing (set by view, read by mouse handler) ────────────────

/// Last-rendered table geometry for the active screen, recorded by the view.
/// The mouse handler reads this to map clicks to list rows accurately.
#[derive(Debug, Clone, Copy, PartialEq, Eq, Structural)]
pub struct TableHitTest {
    /// Screen-space y of the first data row.
    pub data_top: u16,
    /// Number of visible data rows.
    pub visible_rows: u16,
    /// Scroll offset applied when rendering.
    pub scroll: usize,
}

impl Default for TableHitTest {
    fn default() -> (t: TableHitTest)
        ensures
            t == (TableHitTest { data_top: 0, visible_rows: 0, scroll: 0 }),
    {
        TableHitTest { data_top: 0, visible_rows: 0, scroll: 0 }
    }
}

// ── Screens ──────────────────────────────────────────────────────────

#[derive(Debug, Clone, Copy, PartialEq, Eq, Structural)]
pub enum Screen {
    Dashboard,
    Lint,
    FixReview,
    Deps,
    Unused,
    Search,
    Help,
}

// ── Input mode ───────────────────────────────────────────────────────

/// Which text input is currently active, if any.
#[derive(Debug, Clone, Copy, PartialEq, Eq, Structural)]
pub enum InputMode {
    Normal,
    LintFilter,
    SearchQuery,
}

// ── Input events ─────────────────────────────────────────────────────

/// The key of a key press.
#[derive(Debug, Clone, Copy, PartialEq, Eq, Structural)]
pub enum KeyCode {
    Char(char),
    Esc,
    Enter,
    Backspace,
    Tab,
    Up,
    Down,
    PageUp,
    PageDown,
    Home,
    End,
    /// Any key the assistant does not bind.
    Other,
}

/// A key press.
#[derive(Debug, Clone, Copy, PartialEq, Eq, Structural)]
pub struct KeyEvent {
    pub code: KeyCode,
}

/// What a mouse event did.
#[derive(Debug, Clone, Copy, PartialEq, Eq, Structural)]
pub enum MouseEventKind {
    /// The left button went down.
    LeftDown,
    ScrollDown,
    ScrollUp,
    /// Any other mouse event.
    Other,
}

/// A mouse event and the terminal row it happened on.
#[derive(Debug, Clone, Copy, PartialEq, Eq, Structural)]
pub struct MouseEvent {
    pub kind: MouseEventKind,
    pub row: u16,
}

// ── Application state (Model) ────────────────────────────────────────

pub struct AppState {
    pub screen: Screen,
    pub previous_screen: Screen,
    pub quit: bool,
    pub input_mode: InputMode,
    // Project info.
    pub src_dir: String,
    pub module_count: usize,
    pub file_count: usize,
    pub parse_error_count: usize,
    pub parse_errors: Vec<String>,
    pub lint: LintState,
    pub fix_review: FixReviewState,
    pub deps: DepsState,
    pub unused: UnusedState,
    pub search: SearchState,
    // Status bar.
    pub status_message: Option<String>,
    /// Bumped (wrapping) on every status message write. `ClearStatusAfter`
    /// carries the value current when it was issued, so its delayed
    /// `ClearStatus` only clears the message it was scheduled for.
    pub status_gen: u64,
    pub loading: bool,
    /// Geometry of the currently rendered table (set each frame by the view).
    pub table_hit: TableHitTest,
}

pub struct LintState {
    pub result: Option<LintResult>,
    pub selected_index: usize,
    pub filter_text: String,
    /// All findings flattened once per lint run; filtering never changes it.
    pub base_errors: Vec<(String, LintError)>,
    /// Lower-case `path + '\0' + rule + '\0' + message` per base error.
    pub filter_haystacks: Vec<String>,
    /// Indices into `base_errors` matching the current filter (or all of them).
    pub filtered: Vec<usize>,
    /// Whether source preview is visible (toggled with `p`).
    pub show_preview: bool,
}

pub struct FixReviewState {
    /// Fixable errors to review — one item per fix, in file order.
    pub items: Vec<FixReviewItem>,
    /// `accepted_mask[i]` tells whether the user accepted `items[i]`. The
    /// accepted edits are applied per file when the review ends, so several
    /// fixes to one file are merged into one application.
    pub accepted_mask: Vec<bool>,
    pub current_index: usize,
    pub accepted_count: usize,
    pub skipped_count: usize,
    /// When true, the next `a` press applies all remaining fixes.
    pub confirm_accept_all: bool,
}

#[derive(Clone, Debug)]
pub struct FixReviewItem {
    pub file_path: String,
    pub error: LintError,
    /// The file's text before any fix; the same for all items of one file.
    pub original_source: String,
    /// Diff of this fix alone against the original source, for the preview.
    pub diff: Vec<DiffHunk>,
}

pub struct DepsState {
    pub stats: Option<DepsStats>,
    pub graph_data: Option<Vec<(String, Vec<String>)>>,
    pub sub_view: DepsSubView,
    pub selected_index: usize,
}

#[derive(Debug, Clone, Copy, PartialEq, Eq, Structural)]
pub enum DepsSubView {
    Tree,
    Stats,
    Cycles,
}

pub struct UnusedState {
    pub findings: Vec<UnusedFinding>,
    pub selected_index: usize,
    /// Source preview for the selected finding.
    pub preview: Option<SourcePreview>,
}

/// Cached source preview for a file:line.
#[derive(Clone, Debug)]
pub struct SourcePreview {
    pub file_path: String,
    pub line: usize,
    pub source: String,
}

#[derive(Clone, Debug)]
pub struct UnusedFinding {
    pub kind: String,
    pub name: String,
    pub file_path: String,
    pub line: usize,
}

pub struct SearchState {
    pub query: String,
    pub results: Vec<SearchResult>,
    pub selected_index: usize,
    /// Source preview for the selected result.
    pub preview: Option<SourcePreview>,
}

#[derive(Clone, Debug)]
pub struct SearchResult {
    pub file_path: String,
    pub line: usize,
    pub context: String,
}

// ── Messages ─────────────────────────────────────────────────────────

pub enum Msg {
    /// Raw key event — interpreted by `update` based on the current mode.
    KeyPress(KeyEvent),
    /// Mouse event (clicks, scrolls).
    MouseEvent(MouseEvent),
    Quit,
    Tick,
    /// File watcher — carries the paths that changed.
    FileChanged(Vec<String>),
    /// Display an error/warning in the status bar.
    StatusError(String),
    /// Display an informational/success message in the status bar.
    StatusInfo(String),
    /// Clear the status message if it is still the one of this generation.
    ClearStatus(u64),
    LintComplete(LintResult),
    DepsComplete { stats: DepsStats, graph_data: Vec<(String, Vec<String>)> },
    SearchComplete(Vec<SearchResult>),
    PreviewLoaded { file_path: String, line: usize, source: String },
    ProjectScanned {
        module_count: usize,
        file_count: usize,
        parse_error_count: usize,
        parse_errors: Vec<String>,
    },
}

// ── Commands (side effects) ──────────────────────────────────────────

pub enum Command {
    /// Nothing to do.
    NoOp,
    /// Run lint + deps in a single parse pass.
    RunAnalyses,
    RunSearch(String),
    ScanProject,
    /// Write a fixed file: (file_path, fixed_source).
    ApplyFix(String, String),
    /// Load source preview for a file:line.
    LoadPreview(String, usize),
    /// Send `ClearStatus` with this generation after a delay.
    ClearStatusAfter(u64),
    /// Export lint diagnostics to a JSON file.
    ExportLintJson(Vec<(String, LintError)>),
    /// Run the commands one after the other.
    Batch(Vec<Command>),
}

// ── Views and well-formedness ────────────────────────────────────────

/// A flattened finding taken by its path and content.
pub open spec fn entry_view(e: (String, LintError)) -> (Seq<char>, LintErrorModel) {
    (e.0@, e.1@)
}

/// The text the lint filter searches for one finding.
pub open spec fn haystack_of(e: (String, LintError)) -> Seq<char> {
    lowercase(e.0@ + seq!['\0'] + e.1.rule@ + seq!['\0'] + e.1.message@)
}

impl LintState {
    /// The findings the (filtered) list shows, in order.
    pub open spec fn visible(self) -> Seq<(String, LintError)> {
        self.filtered@.map_values(|i: usize| self.base_errors@[i as int])
    }

    /// Haystacks match the findings and filtered indices are in range.
    pub open spec fn wf(self) -> bool {
        &&& self.result matches Some(r) ==> r.wf()
        &&& self.filter_haystacks@.len() == self.base_errors@.len()
        &&& forall|i: int| 0 <= i < self.base_errors@.len() ==> #[trigger] self.filter_haystacks@[i]@
            == haystack_of(self.base_errors@[i])
        &&& forall|k: int| 0 <= k < self.filtered@.len() ==> #[trigger] self.filtered@[k] < self.base_errors@.len()
    }
}

impl FixReviewItem {
    /// The item's fix applies cleanly to its original source.
    pub open spec fn wf(self) -> bool {
        &&& self.error.fix is Some
        &&& edits_accepted(self.error.fix.unwrap().edits@, encode_utf8(self.original_source@).len() as int)
        &&& on_char_boundaries(encode_utf8(self.original_source@), edit_ops(self.error.fix.unwrap().edits@))
    }
}

impl FixReviewState {
    /// One mask entry per item; every item carries an applicable fix, items
    /// of one file share its original text, and the counters stay within
    /// the review's progress.
    pub open spec fn wf(self) -> bool {
        &&& self.accepted_mask@.len() == self.items@.len()
        &&& forall|i: int| 0 <= i < self.items@.len() ==> (#[trigger] self.items@[i]).wf()
        &&& forall|i: int, j: int|
            0 <= i < self.items@.len() && 0 <= j < self.items@.len() && #[trigger] self.items@[i].file_path@
                == #[trigger] self.items@[j].file_path@ ==> self.items@[i].original_source@
                == self.items@[j].original_source@
        &&& self.current_index <= self.items@.len()
        &&& self.accepted_count <= self.current_index
        &&& self.skipped_count <= self.current_index
    }
}

impl AppState {
    /// The state invariant that every update keeps.
    pub open spec fn wf(self) -> bool {
        &&& self.lint.wf()
        &&& self.fix_review.wf()
        &&& self.screen == Screen::FixReview ==> self.fix_review.current_index < self.fix_review.items@.len()
        &&& self.previous_screen != Screen::FixReview
    }
}

} // verus!
