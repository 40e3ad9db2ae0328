use vstd::prelude::*;
use crate::file_tree::{
    NodeOp, TreeNode, TreeView, files_of, op_at, parent_of, refs_view, visible_of,
};
use crate::layout;
use crate::layout::{sat_usize, total_wrapped, wrapped_offset};
use crate::markdown::{
    LineView, RenderedLine, SegView, TextSegment, empty_line_view, flat_search, lines_view,
};
use crate::render::{render_markdown, render_spec};
use crate::parse::events_of;
use crate::search::{SearchResult, results_view};
use crate::text::{lower_of, push_char, spec_contains, str_eq, to_lower};

verus! {

/// Which pane has the keyboard focus.
#[derive(Debug, Clone, Copy, PartialEq, Eq, Structural)]
pub enum Focus {
    Sidebar,
    Content,
}

/// The viewer's interaction mode.
#[derive(Debug, Clone, Copy, PartialEq, Eq, Structural)]
pub enum AppMode {
    Normal,
    Search,
    Settings,
    DocumentSearch,
    Select,
    About,
}

/// The colour theme.
#[derive(Debug, Clone, Copy, PartialEq, Eq, Structural)]
pub enum Theme {
    Dark,
    Light,
}

/// The wrap-width policy: a fixed character width, or no wrapping.
#[derive(Debug, Clone, Copy, PartialEq, Eq, Structural)]
pub enum WrapWidth {
    Chars80,
    Chars120,
    NoWrap,
}

/// The character width a policy wraps at, if any.
pub open spec fn width_of(w: WrapWidth) -> Option<usize> {
    match w {
        WrapWidth::Chars80 => Some(80usize),
        WrapWidth::Chars120 => Some(120usize),
        WrapWidth::NoWrap => None,
    }
}

impl WrapWidth {
    /// The concrete character width, or `None` when lines never wrap.
    pub fn to_usize(self) -> (r: Option<usize>)
        ensures
            r == width_of(self),
    {
        match self {
            WrapWidth::Chars80 => Some(80),
            WrapWidth::Chars120 => Some(120),
            WrapWidth::NoWrap => None,
        }
    }

    /// The label the settings overlay shows for this policy.
    pub fn display_name(self) -> (r: &'static str)
        ensures
            r@ == (match self {
                WrapWidth::Chars80 => "80 characters"@,
                WrapWidth::Chars120 => "120 characters"@,
                WrapWidth::NoWrap => "No wrap"@,
            }),
    {
        match self {
            WrapWidth::Chars80 => "80 characters",
            WrapWidth::Chars120 => "120 characters",
            WrapWidth::NoWrap => "No wrap",
        }
    }

    /// The policy that follows this one when the setting is cycled.
    pub fn next(self) -> (r: Self)
        ensures
            r == (match self {
                WrapWidth::Chars80 => WrapWidth::Chars120,
                WrapWidth::Chars120 => WrapWidth::NoWrap,
                WrapWidth::NoWrap => WrapWidth::Chars80,
            }),
    {
        match self {
            WrapWidth::Chars80 => WrapWidth::Chars120,
            WrapWidth::Chars120 => WrapWidth::NoWrap,
            WrapWidth::NoWrap => WrapWidth::Chars80,
        }
    }
}

/// The persisted viewer settings.
#[derive(Debug, Clone, Copy, PartialEq, Eq, Structural)]
pub struct Settings {
    pub show_line_numbers: bool,
    pub theme: Theme,
    pub wrap_width: WrapWidth,
}

impl Default for Settings {
    /// Line numbers on, dark theme, wrap at 120 characters.
    fn default() -> (r: Self)
        ensures
            r == (Settings {
                show_line_numbers: true,
                theme: Theme::Dark,
                wrap_width: WrapWidth::Chars120,
            }),
    {
        Settings { show_line_numbers: true, theme: Theme::Dark, wrap_width: WrapWidth::Chars120 }
    }
}

/// A plain line with one `Plain` segment holding `t` and no flags.
pub open spec fn plain_seg_line(t: Seq<char>) -> LineView {
    LineView { segments: seq![SegView::Plain(t)], ..empty_line_view() }
}

/// A heading line with one `Plain` segment holding `t`.
pub open spec fn heading_seg_line(t: Seq<char>, level: u8) -> LineView {
    LineView { segments: seq![SegView::Plain(t)], heading_level: level, ..empty_line_view() }
}

/// A plain, unflagged line holding the given text.
pub fn create_plain_line(text: &str) -> (r: RenderedLine)
    ensures
        r@ == plain_seg_line(text@),
{
    let mut line = RenderedLine::new();
    line.segments.push(TextSegment::Plain(text.to_owned()));
    proof {
        assert(line@ =~= plain_seg_line(text@));
    }
    line
}

/// A heading line holding the given text.
pub fn create_heading_line(text: &str, level: u8) -> (r: RenderedLine)
    ensures
        r@ == heading_seg_line(text@, level),
{
    let mut line = RenderedLine::new();
    line.heading_level = level;
    line.segments.push(TextSegment::Plain(text.to_owned()));
    proof {
        assert(line@ =~= heading_seg_line(text@, level));
    }
    line
}

/// The document shown before any file is opened: the keybinding guide.
pub open spec fn welcome_doc() -> Seq<LineView> {
    seq![
        heading_seg_line("Welcome to rmd!"@, 1),
        empty_line_view(),
        plain_seg_line("Select a Markdown file from the sidebar to view its contents."@),
        empty_line_view(),
        heading_seg_line("Navigation"@, 2),
        empty_line_view(),
        plain_seg_line("  j/↓       Move down"@),
        plain_seg_line("  k/↑       Move up"@),
        plain_seg_line("  l/→/Enter Open file / Expand directory"@),
        plain_seg_line("  h/←       Collapse directory / Go to parent"@),
        plain_seg_line("  Tab       Switch focus between sidebar and content"@),
        plain_seg_line("  gg        Go to top"@),
        plain_seg_line("  G         Go to bottom"@),
        empty_line_view(),
        heading_seg_line("Scrolling"@, 2),
        empty_line_view(),
        plain_seg_line("  Ctrl+u    Half page up"@),
        plain_seg_line("  Ctrl+d    Half page down"@),
        plain_seg_line("  Ctrl+b    Full page up"@),
        plain_seg_line("  Ctrl+f    Full page down"@),
        empty_line_view(),
        heading_seg_line("Search"@, 2),
        empty_line_view(),
        plain_seg_line("  /         Search in document"@),
        plain_seg_line("  Ctrl+s    Search all files"@),
        empty_line_view(),
        heading_seg_line("General"@, 2),
        empty_line_view(),
        plain_seg_line("  v         Select mode (for copying text)"@),
        plain_seg_line("  q         Quit"@),
        plain_seg_line("  Ctrl+p    Settings"@),
    ]
}

/// The viewer session: the file tree, the rendered document, the scroll
/// and focus state, the settings, and the two search states.
pub struct App {
    pub tree: TreeNode,
    pub selected_index: usize,
    pub content_scroll: usize,
    pub focus: Focus,
    pub current_file: Option<String>,
    pub rendered_content: Vec<RenderedLine>,
    pub content_height: u16,
    pub mode: AppMode,
    pub search_query: String,
    pub search_results: Vec<SearchResult>,
    pub search_selected: usize,
    pub root_path: String,
    pub settings: Settings,
    pub settings_selected: usize,
    pub doc_search_query: String,
    pub doc_search_matches: Vec<usize>,
    pub doc_search_current: usize,
    pub pending_g: bool,
}

/// The total number of display rows of a document under a policy, clamped
/// to `usize`.
pub open spec fn total_rows(doc: Seq<LineView>, w: WrapWidth) -> nat {
    sat_usize(total_wrapped(doc, width_of(w)))
}

/// The largest scroll offset that still fills the viewport.
pub open spec fn max_scroll(doc: Seq<LineView>, w: WrapWidth, height: u16) -> nat {
    if total_rows(doc, w) >= height as nat {
        (total_rows(doc, w) - height as nat) as nat
    } else {
        0
    }
}

impl App {
    /// A fresh session over a scanned tree and loaded settings, showing
    /// the welcome document.
    pub fn new(root_path: String, tree: TreeNode, settings: Settings) -> (r: Self)
        ensures
            r.tree == tree,
            r.selected_index == 0,
            r.content_scroll == 0,
            r.focus == Focus::Sidebar,
            r.current_file is None,
            lines_view(r.rendered_content@) == welcome_doc(),
            r.content_height == 20,
            r.mode == AppMode::Normal,
            r.search_query@ == Seq::<char>::empty(),
            r.search_results@ == Seq::<SearchResult>::empty(),
            r.search_selected == 0,
            r.root_path == root_path,
            r.settings == settings,
            r.settings_selected == 0,
            r.doc_search_query@ == Seq::<char>::empty(),
            r.doc_search_matches@ == Seq::<usize>::empty(),
            r.doc_search_current == 0,
            r.pending_g == false,
    {
        let mut welcome: Vec<RenderedLine> = Vec::new();
        welcome.push(create_heading_line("Welcome to rmd!", 1));
        welcome.push(RenderedLine::new_empty());
        welcome.push(create_plain_line(
            "Select a Markdown file from the sidebar to view its contents.",
        ));
        welcome.push(RenderedLine::new_empty());
        welcome.push(create_heading_line("Navigation", 2));
        welcome.push(RenderedLine::new_empty());
        welcome.push(create_plain_line("  j/↓       Move down"));
        welcome.push(create_plain_line("  k/↑       Move up"));
        welcome.push(create_plain_line("  l/→/Enter Open file / Expand directory"));
        welcome.push(create_plain_line("  h/←       Collapse directory / Go to parent"));
        welcome.push(create_plain_line("  Tab       Switch focus between sidebar and content"));
        welcome.push(create_plain_line("  gg        Go to top"));
        welcome.push(create_plain_line("  G         Go to bottom"));
        welcome.push(RenderedLine::new_empty());
        welcome.push(create_heading_line("Scrolling", 2));
        welcome.push(RenderedLine::new_empty());
        welcome.push(create_plain_line("  Ctrl+u    Half page up"));
        welcome.push(create_plain_line("  Ctrl+d    Half page down"));
        welcome.push(create_plain_line("  Ctrl+b    Full page up"));
        welcome.push(create_plain_line("  Ctrl+f    Full page down"));
        welcome.push(RenderedLine::new_empty());
        welcome.push(create_heading_line("Search", 2));
        welcome.push(RenderedLine::new_empty());
        welcome.push(create_plain_line("  /         Search in document"));
        welcome.push(create_plain_line("  Ctrl+s    Search all files"));
        welcome.push(RenderedLine::new_empty());
        welcome.push(create_heading_line("General", 2));
        welcome.push(RenderedLine::new_empty());
        welcome.push(create_plain_line("  v         Select mode (for copying text)"));
        welcome.push(create_plain_line("  q         Quit"));
        welcome.push(create_plain_line("  Ctrl+p    Settings"));
        proof {
            assert(lines_view(welcome@) =~= welcome_doc());
        }
        App {
            tree,
            selected_index: 0,
            content_scroll: 0,
            focus: Focus::Sidebar,
            current_file: None,
            rendered_content: welcome,
            content_height: 20,
            mode: AppMode::Normal,
            search_query: String::new(),
            search_results: Vec::new(),
            search_selected: 0,
            root_path,
            settings,
            settings_selected: 0,
            doc_search_query: String::new(),
            doc_search_matches: Vec::new(),
            doc_search_current: 0,
            pending_g: false,
        }
    }

    /// All visible rows of the sidebar tree.
    pub fn visible_items(&self) -> (r: Vec<&TreeNode>)
        ensures
            refs_view(r@) == visible_of(self.tree@),
    {
        self.tree.visible_items()
    }

    /// Replace the document with a freshly rendered file.
    pub fn load_document(&mut self, path: String, content: &str)
        ensures
            *final(self) == (App {
                current_file: final(self).current_file,
                content_scroll: 0,
                rendered_content: final(self).rendered_content,
                ..*old(self)
            }),
            final(self).current_file == Some(path),
            lines_view(final(self).rendered_content@) == render_spec(events_of(content@)),
            final(self).rendered_content@.len() >= 1,
    {
        self.current_file = Some(path);
        self.content_scroll = 0;
        self.rendered_content = render_markdown(content);
    }

    /// Replace the document with a single plain line describing a failed
    /// load, so the pipeline keeps a valid, non-empty document.
    pub fn load_error(&mut self, path: String, message: &str)
        ensures
            *final(self) == (App {
                current_file: final(self).current_file,
                content_scroll: 0,
                rendered_content: final(self).rendered_content,
                ..*old(self)
            }),
            final(self).current_file == Some(path),
            lines_view(final(self).rendered_content@) == seq![plain_seg_line(message@)],
    {
        self.current_file = Some(path);
        self.content_scroll = 0;
        let mut doc: Vec<RenderedLine> = Vec::new();
        doc.push(create_plain_line(message));
        self.rendered_content = doc;
        proof {
            assert(lines_view(self.rendered_content@) =~= seq![plain_seg_line(message@)]);
        }
    }

    /// The total number of display rows of the current document.
    pub fn total_wrapped_lines(&self) -> (r: usize)
        ensures
            r as nat == total_rows(lines_view(self.rendered_content@), self.settings.wrap_width),
    {
        let w = self.settings.wrap_width.to_usize();
        layout::wrapped_count(&self.rendered_content, w)
    }

    /// The display row at which a source line starts.
    fn source_to_wrapped_index(&self, source_idx: usize) -> (r: usize)
        ensures
            r as nat == sat_usize(
                wrapped_offset(
                    lines_view(self.rendered_content@),
                    width_of(self.settings.wrap_width),
                    if source_idx <= self.rendered_content@.len() {
                        source_idx as int
                    } else {
                        self.rendered_content@.len() as int
                    },
                ),
            ),
    {
        let w = self.settings.wrap_width.to_usize();
        layout::source_to_wrapped_offset(&self.rendered_content, w, source_idx)
    }

    /// Move down: the sidebar selection, or the content scroll, by one.
    pub fn next(&mut self)
        ensures
            *final(self) == (App {
                selected_index: final(self).selected_index,
                content_scroll: final(self).content_scroll,
                ..*old(self)
            }),
            old(self).focus == Focus::Sidebar ==> final(self).content_scroll == old(
                self,
            ).content_scroll && final(self).selected_index as int == (if visible_of(
                old(self).tree@,
            ).len() > 0 && old(self).selected_index < visible_of(old(self).tree@).len() - 1 {
                old(self).selected_index + 1
            } else {
                old(self).selected_index as int
            }),
            old(self).focus == Focus::Content ==> final(self).selected_index == old(
                self,
            ).selected_index && final(self).content_scroll as int == (if (old(
                self,
            ).content_scroll as nat) < max_scroll(
                lines_view(old(self).rendered_content@),
                old(self).settings.wrap_width,
                old(self).content_height,
            ) {
                old(self).content_scroll + 1
            } else {
                old(self).content_scroll as int
            }),
    {
        if self.focus == Focus::Sidebar {
            let n = self.visible_items().len();
            if n > 0 && self.selected_index < n - 1 {
                self.selected_index = self.selected_index + 1;
            }
        } else {
            let total = self.total_wrapped_lines();
            let max = total.saturating_sub(self.content_height as usize);
            if self.content_scroll < max {
                self.content_scroll = self.content_scroll + 1;
            }
        }
    }

    /// Move up: the sidebar selection, or the content scroll, by one.
    pub fn previous(&mut self)
        ensures
            *final(self) == (App {
                selected_index: final(self).selected_index,
                content_scroll: final(self).content_scroll,
                ..*old(self)
            }),
            old(self).focus == Focus::Sidebar ==> final(self).content_scroll == old(
                self,
            ).content_scroll && final(self).selected_index as int == (if old(
                self,
            ).selected_index > 0 {
                old(self).selected_index - 1
            } else {
                0
            }),
            old(self).focus == Focus::Content ==> final(self).selected_index == old(
                self,
            ).selected_index && final(self).content_scroll as int == (if old(
                self,
            ).content_scroll > 0 {
                old(self).content_scroll - 1
            } else {
                0
            }),
    {
        if self.focus == Focus::Sidebar {
            if self.selected_index > 0 {
                self.selected_index = self.selected_index - 1;
            }
        } else {
            if self.content_scroll > 0 {
                self.content_scroll = self.content_scroll - 1;
            }
        }
    }

    /// On a directory, toggle its expansion; on a file, hand back its path
    /// for the caller to load.
    pub fn toggle_or_select(&mut self) -> (r: Option<String>)
        ensures
            *final(self) == (App { tree: final(self).tree, ..*old(self) }),
            ({
                let items = visible_of(old(self).tree@);
                if old(self).selected_index < items.len() {
                    if items[old(self).selected_index as int].is_dir {
                        &&& r is None
                        &&& final(self).tree@ == op_at(
                            old(self).tree@,
                            old(self).selected_index as int,
                            NodeOp::Toggle,
                        )
                    } else {
                        &&& r matches Some(p) && p@ == items[old(self).selected_index as int].path
                        &&& final(self).tree@ == old(self).tree@
                    }
                } else {
                    r is None && final(self).tree@ == old(self).tree@
                }
            }),
    {
        let sel = self.selected_index;
        let mut is_dir = false;
        let mut path = String::new();
        let mut found = false;
        {
            let items = self.visible_items();
            if sel < items.len() {
                found = true;
                is_dir = items[sel].is_dir;
                path = items[sel].path.clone();
                proof {
                    assert(refs_view(items@)[sel as int] == items@[sel as int]@);
                }
            }
        }
        if found {
            if is_dir {
                self.tree.apply_at(sel, NodeOp::Toggle);
                None
            } else {
                Some(path)
            }
        } else {
            None
        }
    }

    /// Collapse the selected expanded directory, or move the selection to
    /// its parent row.
    pub fn collapse_or_parent(&mut self)
        ensures
            *final(self) == (App {
                tree: final(self).tree,
                selected_index: final(self).selected_index,
                ..*old(self)
            }),
            ({
                let items = visible_of(old(self).tree@);
                if old(self).selected_index < items.len() {
                    if items[old(self).selected_index as int].is_dir && items[old(
                        self,
                    ).selected_index as int].expanded {
                        &&& final(self).tree@ == op_at(
                            old(self).tree@,
                            old(self).selected_index as int,
                            NodeOp::Toggle,
                        )
                        &&& final(self).selected_index == old(self).selected_index
                    } else {
                        &&& final(self).tree@ == old(self).tree@
                        &&& final(self).selected_index == (match parent_of(
                            old(self).tree@,
                            old(self).selected_index as int,
                            0,
                            None,
                        ) {
                            Some(p) => p,
                            None => old(self).selected_index,
                        })
                    }
                } else {
                    final(self).tree@ == old(self).tree@ && final(self).selected_index == old(
                        self,
                    ).selected_index
                }
            }),
    {
        let sel = self.selected_index;
        let mut is_open_dir = false;
        let mut found = false;
        {
            let items = self.visible_items();
            if sel < items.len() {
                found = true;
                is_open_dir = items[sel].is_dir && items[sel].expanded;
                proof {
                    assert(refs_view(items@)[sel as int] == items@[sel as int]@);
                }
            }
        }
        if found {
            if is_open_dir {
                self.tree.apply_at(sel, NodeOp::Toggle);
            } else {
                match self.tree.find_parent_index(sel) {
                    Some(p) => {
                        self.selected_index = p;
                    }
                    None => {}
                }
            }
        }
    }

    /// In the sidebar: expand the selected directory, or hand back the
    /// selected file's path and move focus to the content pane.
    pub fn focus_content_or_select(&mut self) -> (r: Option<String>)
        ensures
            *final(self) == (App {
                tree: final(self).tree,
                focus: final(self).focus,
                ..*old(self)
            }),
            old(self).focus != Focus::Sidebar ==> r is None && final(self).tree@ == old(
                self,
            ).tree@ && final(self).focus == old(self).focus,
            old(self).focus == Focus::Sidebar ==> ({
                let items = visible_of(old(self).tree@);
                if old(self).selected_index < items.len() {
                    if items[old(self).selected_index as int].is_dir {
                        &&& r is None
                        &&& final(self).tree@ == op_at(
                            old(self).tree@,
                            old(self).selected_index as int,
                            NodeOp::Expand,
                        )
                        &&& final(self).focus == old(self).focus
                    } else {
                        &&& r matches Some(p) && p@ == items[old(self).selected_index as int].path
                        &&& final(self).tree@ == old(self).tree@
                        &&& final(self).focus == Focus::Content
                    }
                } else {
                    r is None && final(self).tree@ == old(self).tree@ && final(self).focus == old(
                        self,
                    ).focus
                }
            }),
    {
        if self.focus != Focus::Sidebar {
            return None;
        }
        let sel = self.selected_index;
        let mut is_dir = false;
        let mut path = String::new();
        let mut found = false;
        {
            let items = self.visible_items();
            if sel < items.len() {
                found = true;
                is_dir = items[sel].is_dir;
                path = items[sel].path.clone();
                proof {
                    assert(refs_view(items@)[sel as int] == items@[sel as int]@);
                }
            }
        }
        if found {
            if is_dir {
                self.tree.apply_at(sel, NodeOp::Expand);
                None
            } else {
                self.focus = Focus::Content;
                Some(path)
            }
        } else {
            None
        }
    }

    /// From the content pane, go back to the sidebar; in the sidebar,
    /// collapse or go to the parent.
    pub fn focus_sidebar_or_collapse(&mut self)
        ensures
            old(self).focus == Focus::Content ==> *final(self) == (App {
                focus: Focus::Sidebar,
                ..*old(self)
            }),
            old(self).focus == Focus::Sidebar ==> *final(self) == (App {
                tree: final(self).tree,
                selected_index: final(self).selected_index,
                ..*old(self)
            }),
    {
        if self.focus == Focus::Content {
            self.focus = Focus::Sidebar;
        } else {
            self.collapse_or_parent();
        }
    }

    /// Switch the focused pane.
    pub fn toggle_focus(&mut self)
        ensures
            *final(self) == (App {
                focus: match old(self).focus {
                    Focus::Sidebar => Focus::Content,
                    Focus::Content => Focus::Sidebar,
                },
                ..*old(self)
            }),
    {
        self.focus = match self.focus {
            Focus::Sidebar => Focus::Content,
            Focus::Content => Focus::Sidebar,
        };
    }

    /// Jump to the top of the focused pane.
    pub fn scroll_to_top(&mut self)
        ensures
            old(self).focus == Focus::Sidebar ==> *final(self) == (App {
                selected_index: 0usize,
                ..*old(self)
            }),
            old(self).focus == Focus::Content ==> *final(self) == (App {
                content_scroll: 0usize,
                ..*old(self)
            }),
    {
        if self.focus == Focus::Sidebar {
            self.selected_index = 0;
        } else {
            self.content_scroll = 0;
        }
    }

    /// Jump to the bottom of the focused pane.
    pub fn scroll_to_bottom(&mut self)
        ensures
            *final(self) == (App {
                selected_index: final(self).selected_index,
                content_scroll: final(self).content_scroll,
                ..*old(self)
            }),
            old(self).focus == Focus::Sidebar ==> final(self).content_scroll == old(
                self,
            ).content_scroll && final(self).selected_index as int == (if visible_of(
                old(self).tree@,
            ).len() > 0 {
                visible_of(old(self).tree@).len() - 1
            } else {
                old(self).selected_index as int
            }),
            old(self).focus == Focus::Content ==> final(self).selected_index == old(
                self,
            ).selected_index && final(self).content_scroll as nat == max_scroll(
                lines_view(old(self).rendered_content@),
                old(self).settings.wrap_width,
                old(self).content_height,
            ),
    {
        if self.focus == Focus::Sidebar {
            let n = self.visible_items().len();
            if n > 0 {
                self.selected_index = n - 1;
            }
        } else {
            let total = self.total_wrapped_lines();
            self.content_scroll = total.saturating_sub(self.content_height as usize);
        }
    }

    /// Move one page up: the content by a viewport height, the sidebar
    /// selection by ten rows.
    pub fn page_up(&mut self)
        ensures
            old(self).focus == Focus::Content ==> *final(self) == (App {
                content_scroll: final(self).content_scroll,
                ..*old(self)
            }) && final(self).content_scroll as int == (if old(self).content_scroll >= old(
                self,
            ).content_height as int {
                old(self).content_scroll - old(self).content_height
            } else {
                0
            }),
            old(self).focus == Focus::Sidebar ==> *final(self) == (App {
                selected_index: final(self).selected_index,
                ..*old(self)
            }) && final(self).selected_index as int == (if old(self).selected_index >= 10 {
                old(self).selected_index - 10
            } else {
                0
            }),
    {
        if self.focus == Focus::Content {
            let page = self.content_height as usize;
            self.content_scroll = self.content_scroll.saturating_sub(page);
        } else {
            self.selected_index = self.selected_index.saturating_sub(10);
        }
    }

    /// Move one page down: the content by a viewport height, the sidebar
    /// selection by ten rows, both clamped.
    pub fn page_down(&mut self)
        ensures
            old(self).focus == Focus::Content ==> *final(self) == (App {
                content_scroll: final(self).content_scroll,
                ..*old(self)
            }) && final(self).content_scroll as nat == ({
                let m = max_scroll(
                    lines_view(old(self).rendered_content@),
                    old(self).settings.wrap_width,
                    old(self).content_height,
                );
                if old(self).content_scroll + old(self).content_height as nat <= m {
                    (old(self).content_scroll + old(self).content_height) as nat
                } else {
                    m
                }
            }),
            old(self).focus == Focus::Sidebar ==> *final(self) == (App {
                selected_index: final(self).selected_index,
                ..*old(self)
            }) && final(self).selected_index as nat == ({
                let m = if visible_of(old(self).tree@).len() > 0 {
                    (visible_of(old(self).tree@).len() - 1) as nat
                } else {
                    0
                };
                if old(self).selected_index + 10 <= m {
                    (old(self).selected_index + 10) as nat
                } else {
                    m
                }
            }),
    {
        if self.focus == Focus::Content {
            let page = self.content_height as usize;
            let total = self.total_wrapped_lines();
            let maxs = total.saturating_sub(self.content_height as usize);
            let stepped = self.content_scroll.saturating_add(page);
            self.content_scroll = if stepped < maxs {
                stepped
            } else {
                maxs
            };
        } else {
            let n = self.visible_items().len();
            let maxsel = n.saturating_sub(1);
            let stepped = self.selected_index.saturating_add(10);
            self.selected_index = if stepped < maxsel {
                stepped
            } else {
                maxsel
            };
        }
    }

    /// Scroll the content up by half a viewport.
    pub fn half_page_up(&mut self)
        ensures
            *final(self) == (App { content_scroll: final(self).content_scroll, ..*old(self) }),
            final(self).content_scroll as int == (if old(self).content_scroll as int >= old(
                self,
            ).content_height as int / 2 {
                old(self).content_scroll as int - old(self).content_height as int / 2
            } else {
                0int
            }),
    {
        let half = (self.content_height / 2) as usize;
        self.content_scroll = self.content_scroll.saturating_sub(half);
    }

    /// Scroll the content down by half a viewport, clamped.
    pub fn half_page_down(&mut self)
        ensures
            *final(self) == (App { content_scroll: final(self).content_scroll, ..*old(self) }),
            final(self).content_scroll as nat == ({
                let m = max_scroll(
                    lines_view(old(self).rendered_content@),
                    old(self).settings.wrap_width,
                    old(self).content_height,
                );
                if old(self).content_scroll as nat + (old(self).content_height / 2) as nat
                    <= m {
                    old(self).content_scroll as nat + (old(self).content_height / 2) as nat
                } else {
                    m
                }
            }),
    {
        let half = (self.content_height / 2) as usize;
        let total = self.total_wrapped_lines();
        let maxs = total.saturating_sub(self.content_height as usize);
        let stepped = self.content_scroll.saturating_add(half);
        self.content_scroll = if stepped < maxs {
            stepped
        } else {
            maxs
        };
    }

    /// Scroll the content up by one wheel tick of three rows.
    pub fn scroll_wheel_up(&mut self)
        ensures
            *final(self) == (App { content_scroll: final(self).content_scroll, ..*old(self) }),
            final(self).content_scroll as int == (if old(self).content_scroll >= 3 {
                old(self).content_scroll as int - 3
            } else {
                0int
            }),
    {
        self.content_scroll = self.content_scroll.saturating_sub(3);
    }

    /// Scroll the content down by one wheel tick of three rows, clamped.
    pub fn scroll_wheel_down(&mut self)
        ensures
            *final(self) == (App { content_scroll: final(self).content_scroll, ..*old(self) }),
            final(self).content_scroll as nat == ({
                let m = max_scroll(
                    lines_view(old(self).rendered_content@),
                    old(self).settings.wrap_width,
                    old(self).content_height,
                );
                if old(self).content_scroll + 3 <= m {
                    (old(self).content_scroll + 3) as nat
                } else {
                    m
                }
            }),
    {
        let total = self.total_wrapped_lines();
        let maxs = total.saturating_sub(self.content_height as usize);
        let stepped = self.content_scroll.saturating_add(3);
        self.content_scroll = if stepped < maxs {
            stepped
        } else {
            maxs
        };
    }

    /// Scroll the content to its first row.
    pub fn scroll_content_to_top(&mut self)
        ensures
            *final(self) == (App { content_scroll: 0usize, ..*old(self) }),
    {
        self.content_scroll = 0;
    }

    /// Scroll the content to its last page.
    pub fn scroll_content_to_bottom(&mut self)
        ensures
            *final(self) == (App { content_scroll: final(self).content_scroll, ..*old(self) }),
            final(self).content_scroll as nat == max_scroll(
                lines_view(old(self).rendered_content@),
                old(self).settings.wrap_width,
                old(self).content_height,
            ),
    {
        let total = self.total_wrapped_lines();
        self.content_scroll = total.saturating_sub(self.content_height as usize);
    }

    /// Record the viewport height, less the two border rows, and re-clamp
    /// the scroll offset to the new valid range.
    pub fn set_content_height(&mut self, height: u16)
        ensures
            *final(self) == (App {
                content_height: final(self).content_height,
                content_scroll: final(self).content_scroll,
                ..*old(self)
            }),
            final(self).content_height as int == (if height >= 2 {
                height - 2
            } else {
                0
            }),
            final(self).content_scroll as nat == ({
                let m = max_scroll(
                    lines_view(old(self).rendered_content@),
                    old(self).settings.wrap_width,
                    final(self).content_height,
                );
                if old(self).content_scroll as nat <= m {
                    old(self).content_scroll as nat
                } else {
                    m
                }
            }),
    {
        self.content_height = if height >= 2 {
            height - 2
        } else {
            0
        };
        let total = self.total_wrapped_lines();
        let maxs = total.saturating_sub(self.content_height as usize);
        if self.content_scroll > maxs {
            self.content_scroll = maxs;
        }
    }

    /// Open the all-files search overlay with an empty query.
    pub fn enter_search_mode(&mut self)
        ensures
            *final(self) == (App {
                mode: AppMode::Search,
                search_query: final(self).search_query,
                search_results: final(self).search_results,
                search_selected: 0usize,
                ..*old(self)
            }),
            final(self).search_query@ == Seq::<char>::empty(),
            final(self).search_results@ == Seq::<SearchResult>::empty(),
    {
        self.mode = AppMode::Search;
        self.search_query = String::new();
        self.search_results = Vec::new();
        self.search_selected = 0;
    }

    /// Close the all-files search overlay and drop its state.
    pub fn exit_search_mode(&mut self)
        ensures
            *final(self) == (App {
                mode: AppMode::Normal,
                search_query: final(self).search_query,
                search_results: final(self).search_results,
                search_selected: 0usize,
                ..*old(self)
            }),
            final(self).search_query@ == Seq::<char>::empty(),
            final(self).search_results@ == Seq::<SearchResult>::empty(),
    {
        self.mode = AppMode::Normal;
        self.search_query = String::new();
        self.search_results = Vec::new();
        self.search_selected = 0;
    }

    /// Open the settings overlay on its first entry.
    pub fn enter_settings_mode(&mut self)
        ensures
            *final(self) == (App {
                mode: AppMode::Settings,
                settings_selected: 0usize,
                ..*old(self)
            }),
    {
        self.mode = AppMode::Settings;
        self.settings_selected = 0;
    }

    /// Close the settings overlay.
    pub fn exit_settings_mode(&mut self)
        ensures
            *final(self) == (App { mode: AppMode::Normal, ..*old(self) }),
    {
        self.mode = AppMode::Normal;
    }

    /// Flip or cycle the selected setting. The caller persists the new
    /// settings.
    pub fn settings_toggle_current(&mut self)
        ensures
            *final(self) == (App { settings: final(self).settings, ..*old(self) }),
            final(self).settings == (match old(self).settings_selected {
                0usize => Settings {
                    show_line_numbers: !old(self).settings.show_line_numbers,
                    ..old(self).settings
                },
                1usize => Settings {
                    theme: match old(self).settings.theme {
                        Theme::Dark => Theme::Light,
                        Theme::Light => Theme::Dark,
                    },
                    ..old(self).settings
                },
                2usize => Settings {
                    wrap_width: match old(self).settings.wrap_width {
                        WrapWidth::Chars80 => WrapWidth::Chars120,
                        WrapWidth::Chars120 => WrapWidth::NoWrap,
                        WrapWidth::NoWrap => WrapWidth::Chars80,
                    },
                    ..old(self).settings
                },
                _ => old(self).settings,
            }),
    {
        match self.settings_selected {
            0 => {
                self.settings.show_line_numbers = !self.settings.show_line_numbers;
            }
            1 => {
                self.settings.theme = match self.settings.theme {
                    Theme::Dark => Theme::Light,
                    Theme::Light => Theme::Dark,
                };
            }
            2 => {
                self.settings.wrap_width = self.settings.wrap_width.next();
            }
            _ => {}
        }
    }

    /// Move to the next settings row (there are three).
    pub fn settings_next(&mut self)
        ensures
            *final(self) == (App {
                settings_selected: if old(self).settings_selected < 2 {
                    (old(self).settings_selected + 1) as usize
                } else {
                    old(self).settings_selected
                },
                ..*old(self)
            }),
    {
        if self.settings_selected < 2 {
            self.settings_selected = self.settings_selected + 1;
        }
    }

    /// Move to the previous settings row.
    pub fn settings_previous(&mut self)
        ensures
            *final(self) == (App {
                settings_selected: if old(self).settings_selected > 0 {
                    (old(self).settings_selected - 1) as usize
                } else {
                    0usize
                },
                ..*old(self)
            }),
    {
        if self.settings_selected > 0 {
            self.settings_selected = self.settings_selected - 1;
        }
    }

    /// Open the in-document search bar with an empty query.
    pub fn enter_doc_search_mode(&mut self)
        ensures
            *final(self) == (App {
                mode: AppMode::DocumentSearch,
                doc_search_query: final(self).doc_search_query,
                doc_search_matches: final(self).doc_search_matches,
                doc_search_current: 0usize,
                ..*old(self)
            }),
            final(self).doc_search_query@ == Seq::<char>::empty(),
            final(self).doc_search_matches@ == Seq::<usize>::empty(),
    {
        self.mode = AppMode::DocumentSearch;
        self.doc_search_query = String::new();
        self.doc_search_matches = Vec::new();
        self.doc_search_current = 0;
    }

    /// Close the in-document search bar and drop its state.
    pub fn exit_doc_search_mode(&mut self)
        ensures
            *final(self) == (App {
                mode: AppMode::Normal,
                doc_search_query: final(self).doc_search_query,
                doc_search_matches: final(self).doc_search_matches,
                doc_search_current: 0usize,
                ..*old(self)
            }),
            final(self).doc_search_query@ == Seq::<char>::empty(),
            final(self).doc_search_matches@ == Seq::<usize>::empty(),
    {
        self.mode = AppMode::Normal;
        self.doc_search_query = String::new();
        self.doc_search_matches = Vec::new();
        self.doc_search_current = 0;
    }
}

/// Whether a document line matches a lowercased query.
pub open spec fn doc_line_matches(l: LineView, q_lower: Seq<char>) -> bool {
    spec_contains(lower_of(flat_search(l)), q_lower)
}

/// What a full, from-scratch recomputation of the in-document search for
/// query `q` establishes, relating the state before (`pre`) to the state
/// after (`post`): an empty query matches nothing and leaves the scroll;
/// otherwise the match set is exactly the ascending source indices whose
/// flattened lowercased text contains the lowercased query, and the
/// viewport is centered on the first match when there is one.
pub open spec fn doc_search_recomputed(pre: App, post: App, q: Seq<char>) -> bool {
    let doc = lines_view(pre.rendered_content@);
    let ms = post.doc_search_matches@;
    &&& q.len() == 0 ==> ms == Seq::<usize>::empty() && post.content_scroll
        == pre.content_scroll
    &&& q.len() > 0 ==> ({
        let ql = lower_of(q);
        &&& forall|t: int|
            0 <= t < ms.len() ==> #[trigger] ms[t] < doc.len() && doc_line_matches(
                doc[ms[t] as int],
                ql,
            )
        &&& forall|j: int|
            0 <= j < doc.len() && doc_line_matches(#[trigger] doc[j], ql) ==> ms.contains(
                j as usize,
            )
        &&& forall|t1: int, t2: int| 0 <= t1 < t2 < ms.len() ==> ms[t1] < ms[t2]
        &&& ms.len() > 0 ==> post.content_scroll as nat == centered_scroll(
            doc,
            pre.settings.wrap_width,
            pre.content_height,
            ms[0],
        )
        &&& ms.len() == 0 ==> post.content_scroll == pre.content_scroll
    })
}

/// The scroll offset that centers a source line in the viewport, clamped
/// to the valid scroll range.
pub open spec fn centered_scroll(doc: Seq<LineView>, w: WrapWidth, height: u16, idx: usize) -> nat {
    let wrapped = sat_usize(
        wrapped_offset(
            doc,
            width_of(w),
            if idx <= doc.len() {
                idx as int
            } else {
                doc.len() as int
            },
        ),
    );
    let half = (height / 2) as nat;
    let uncapped = if wrapped >= half {
        (wrapped - half) as nat
    } else {
        0
    };
    let m = max_scroll(doc, w, height);
    if uncapped <= m {
        uncapped
    } else {
        m
    }
}

impl App {
    /// Center the viewport on the current match, if there is one.
    fn jump_to_current_match(&mut self)
        ensures
            *final(self) == (App { content_scroll: final(self).content_scroll, ..*old(self) }),
            old(self).doc_search_current < old(self).doc_search_matches@.len() ==> final(self).content_scroll as nat == centered_scroll(
                lines_view(old(self).rendered_content@),
                old(self).settings.wrap_width,
                old(self).content_height,
                old(self).doc_search_matches@[old(self).doc_search_current as int],
            ),
            old(self).doc_search_current >= old(self).doc_search_matches@.len() ==> final(self).content_scroll == old(self).content_scroll,
    {
        if self.doc_search_current < self.doc_search_matches.len() {
            let line_idx = self.doc_search_matches[self.doc_search_current];
            let wrapped_idx = self.source_to_wrapped_index(line_idx);
            let half = (self.content_height / 2) as usize;
            let uncapped = wrapped_idx.saturating_sub(half);
            let total = self.total_wrapped_lines();
            let maxs = total.saturating_sub(self.content_height as usize);
            self.content_scroll = if uncapped < maxs {
                uncapped
            } else {
                maxs
            };
        }
    }

    /// Recompute the in-document matches for the current query from
    /// scratch, and center the viewport on the first match if any. An
    /// empty query matches nothing.
    pub fn perform_doc_search(&mut self)
        ensures
            *final(self) == (App {
                doc_search_matches: final(self).doc_search_matches,
                doc_search_current: 0usize,
                content_scroll: final(self).content_scroll,
                ..*old(self)
            }),
            doc_search_recomputed(*old(self), *final(self), old(self).doc_search_query@),
    {
        self.doc_search_current = 0;
        if self.doc_search_query.as_str().is_empty() {
            self.doc_search_matches = Vec::new();
            proof {
                assert(self.doc_search_matches@ =~= Seq::<usize>::empty());
            }
            return;
        }
        let ghost doc = lines_view(self.rendered_content@);
        let mut texts: Vec<String> = Vec::new();
        let mut i: usize = 0;
        while i < self.rendered_content.len()
            invariant
                i <= self.rendered_content@.len(),
                doc == lines_view(self.rendered_content@),
                doc.len() == self.rendered_content@.len(),
                texts@.len() == i,
                forall|j: int|
                    0 <= j < i ==> #[trigger] texts.deep_view()[j] == lower_of(
                        flat_search(doc[j]),
                    ),
            decreases self.rendered_content@.len() - i,
        {
            let flat = self.rendered_content[i].to_search_string();
            let lowered = to_lower(flat.as_str());
            let ghost old_dv = texts.deep_view();
            texts.push(lowered);
            proof {
                assert(doc[i as int] == self.rendered_content@[i as int]@);
                assert(texts.deep_view() =~= old_dv.push(lowered@));
            }
            i = i + 1;
        }
        let q_lower = to_lower(self.doc_search_query.as_str());
        let matches = crate::search::collect_matches(&texts, q_lower.as_str());
        self.doc_search_matches = matches;
        proof {
            let q = lower_of(old(self).doc_search_query@);
            assert forall|j: int|
                0 <= j < doc.len() && doc_line_matches(#[trigger] doc[j], q) implies self
                .doc_search_matches@.contains(j as usize) by {
                assert(texts.deep_view()[j] == lower_of(flat_search(doc[j])));
            }
        }
        if self.doc_search_matches.len() > 0 {
            self.jump_to_current_match();
        }
    }

    /// Extend the in-document query by one character and search again.
    pub fn doc_search_add_char(&mut self, c: char)
        ensures
            *final(self) == (App {
                doc_search_query: final(self).doc_search_query,
                doc_search_matches: final(self).doc_search_matches,
                doc_search_current: 0usize,
                content_scroll: final(self).content_scroll,
                ..*old(self)
            }),
            final(self).doc_search_query@ == old(self).doc_search_query@.push(c),
            doc_search_recomputed(
                *old(self),
                *final(self),
                old(self).doc_search_query@.push(c),
            ),
    {
        push_char(&mut self.doc_search_query, c);
        self.perform_doc_search();
    }

    /// Drop the last character of the in-document query and search again.
    pub fn doc_search_backspace(&mut self)
        ensures
            *final(self) == (App {
                doc_search_query: final(self).doc_search_query,
                doc_search_matches: final(self).doc_search_matches,
                doc_search_current: 0usize,
                content_scroll: final(self).content_scroll,
                ..*old(self)
            }),
            final(self).doc_search_query@ == (if old(self).doc_search_query@.len() > 0 {
                old(self).doc_search_query@.drop_last()
            } else {
                old(self).doc_search_query@
            }),
            doc_search_recomputed(
                *old(self),
                *final(self),
                if old(self).doc_search_query@.len() > 0 {
                    old(self).doc_search_query@.drop_last()
                } else {
                    old(self).doc_search_query@
                },
            ),
    {
        let n = self.doc_search_query.as_str().unicode_len();
        if n > 0 {
            let shortened = self.doc_search_query.as_str().substring_char(0, n - 1).to_owned();
            self.doc_search_query = shortened;
            proof {
                assert(self.doc_search_query@ =~= old(self).doc_search_query@.drop_last());
            }
        }
        self.perform_doc_search();
    }

    /// Step to the next match, wrapping around, and center it.
    pub fn doc_search_next(&mut self)
        ensures
            *final(self) == (App {
                doc_search_current: final(self).doc_search_current,
                content_scroll: final(self).content_scroll,
                ..*old(self)
            }),
            old(self).doc_search_matches@.len() == 0 ==> final(self).doc_search_current == old(
                self,
            ).doc_search_current && final(self).content_scroll == old(self).content_scroll,
            old(self).doc_search_matches@.len() > 0 ==> ({
                let n = old(self).doc_search_matches@.len();
                let cur = ((old(self).doc_search_current + 1) as nat % n) as usize;
                &&& final(self).doc_search_current == cur
                &&& cur < n ==> final(self).content_scroll as nat == centered_scroll(
                    lines_view(old(self).rendered_content@),
                    old(self).settings.wrap_width,
                    old(self).content_height,
                    old(self).doc_search_matches@[cur as int],
                )
            }),
    {
        if self.doc_search_matches.len() > 0 {
            let n = self.doc_search_matches.len();
            let r0 = self.doc_search_current % n;
            self.doc_search_current = (r0 + 1) % n;
            proof {
                let c = old(self).doc_search_current as int;
                vstd::arithmetic::div_mod::lemma_add_mod_noop(c, 1, n as int);
                if n == 1 {
                    assert(self.doc_search_current as int == (c + 1) % (n as int));
                } else {
                    vstd::arithmetic::div_mod::lemma_small_mod(1nat, n as nat);
                    assert(self.doc_search_current as int == (c + 1) % (n as int));
                }
            }
            self.jump_to_current_match();
        }
    }

    /// Step to the previous match, wrapping around, and center it.
    pub fn doc_search_previous(&mut self)
        ensures
            *final(self) == (App {
                doc_search_current: final(self).doc_search_current,
                content_scroll: final(self).content_scroll,
                ..*old(self)
            }),
            old(self).doc_search_matches@.len() == 0 ==> final(self).doc_search_current == old(
                self,
            ).doc_search_current && final(self).content_scroll == old(self).content_scroll,
            old(self).doc_search_matches@.len() > 0 ==> ({
                let n = old(self).doc_search_matches@.len();
                let cur = if old(self).doc_search_current == 0 {
                    (n - 1) as usize
                } else {
                    (old(self).doc_search_current - 1) as usize
                };
                &&& final(self).doc_search_current == cur
                &&& cur < n ==> final(self).content_scroll as nat == centered_scroll(
                    lines_view(old(self).rendered_content@),
                    old(self).settings.wrap_width,
                    old(self).content_height,
                    old(self).doc_search_matches@[cur as int],
                )
            }),
    {
        if self.doc_search_matches.len() > 0 {
            if self.doc_search_current == 0 {
                self.doc_search_current = self.doc_search_matches.len() - 1;
            } else {
                self.doc_search_current = self.doc_search_current - 1;
            }
            self.jump_to_current_match();
        }
    }

    /// Extend the all-files query by one character and clear the stale
    /// results; the caller recomputes them with `perform_search`.
    pub fn search_add_char(&mut self, c: char)
        ensures
            *final(self) == (App {
                search_query: final(self).search_query,
                search_results: final(self).search_results,
                search_selected: 0usize,
                ..*old(self)
            }),
            final(self).search_query@ == old(self).search_query@.push(c),
            final(self).search_results@ == Seq::<SearchResult>::empty(),
    {
        push_char(&mut self.search_query, c);
        self.search_results = Vec::new();
        self.search_selected = 0;
    }

    /// Drop the last character of the all-files query and clear the stale
    /// results; the caller recomputes them with `perform_search`.
    pub fn search_backspace(&mut self)
        ensures
            *final(self) == (App {
                search_query: final(self).search_query,
                search_results: final(self).search_results,
                search_selected: 0usize,
                ..*old(self)
            }),
            final(self).search_query@ == (if old(self).search_query@.len() > 0 {
                old(self).search_query@.drop_last()
            } else {
                old(self).search_query@
            }),
            final(self).search_results@ == Seq::<SearchResult>::empty(),
    {
        let n = self.search_query.as_str().unicode_len();
        if n > 0 {
            let shortened = self.search_query.as_str().substring_char(0, n - 1).to_owned();
            self.search_query = shortened;
            proof {
                assert(self.search_query@ =~= old(self).search_query@.drop_last());
            }
        }
        self.search_results = Vec::new();
        self.search_selected = 0;
    }

    /// Recompute the all-files results for the current query over the
    /// given files. An empty query yields no results; otherwise each file
    /// with a matching line contributes one result, in file order, capped
    /// at the first 50.
    pub fn perform_search(&mut self, files: &Vec<crate::search::FileText>)
        ensures
            *final(self) == (App {
                search_results: final(self).search_results,
                search_selected: 0usize,
                ..*old(self)
            }),
            old(self).search_query@.len() == 0 ==> final(self).search_results@
                == Seq::<SearchResult>::empty(),
            old(self).search_query@.len() > 0 ==> results_view(final(self).search_results@)
                == ({
                let rs = crate::search::results_spec(
                    crate::search::files_view(files@),
                    lower_of(old(self).search_query@),
                );
                if rs.len() <= 50 {
                    rs
                } else {
                    rs.take(50)
                }
            }),
    {
        self.search_selected = 0;
        if self.search_query.as_str().is_empty() {
            self.search_results = Vec::new();
            proof {
                assert(self.search_results@ =~= Seq::<SearchResult>::empty());
            }
            return;
        }
        let q_lower = to_lower(self.search_query.as_str());
        self.search_results = crate::search::search_files(files, q_lower.as_str());
    }

    /// Move the result selection down.
    pub fn search_next(&mut self)
        ensures
            *final(self) == (App {
                search_selected: if old(self).search_results@.len() > 0 && old(
                    self,
                ).search_selected < old(self).search_results@.len() - 1 {
                    (old(self).search_selected + 1) as usize
                } else {
                    old(self).search_selected
                },
                ..*old(self)
            }),
    {
        let n = self.search_results.len();
        if n > 0 && self.search_selected < n - 1 {
            self.search_selected = self.search_selected + 1;
        }
    }

    /// Move the result selection up.
    pub fn search_previous(&mut self)
        ensures
            *final(self) == (App {
                search_selected: if old(self).search_selected > 0 {
                    (old(self).search_selected - 1) as usize
                } else {
                    0usize
                },
                ..*old(self)
            }),
    {
        if self.search_selected > 0 {
            self.search_selected = self.search_selected - 1;
        }
    }

    /// Pick the selected result: close the overlay, focus the content,
    /// carry the query into the in-document search, and hand back the
    /// file's path for the caller to load and then search.
    pub fn search_select(&mut self) -> (r: Option<String>)
        ensures
            old(self).search_selected >= old(self).search_results@.len() ==> r is None
                && *final(self) == *old(self),
            old(self).search_selected < old(self).search_results@.len() ==> ({
                &&& r matches Some(p) && p@ == old(self).search_results@[old(
                    self,
                ).search_selected as int]@.path
                &&& *final(self) == (App {
                    mode: AppMode::DocumentSearch,
                    focus: Focus::Content,
                    search_query: final(self).search_query,
                    search_results: final(self).search_results,
                    search_selected: 0usize,
                    doc_search_query: final(self).doc_search_query,
                    ..*old(self)
                })
                &&& final(self).search_query@ == Seq::<char>::empty()
                &&& final(self).search_results@ == Seq::<SearchResult>::empty()
                &&& final(self).doc_search_query@ == old(self).search_query@
            }),
    {
        if self.search_selected < self.search_results.len() {
            let path = self.search_results[self.search_selected].path.clone();
            let query = self.search_query.clone();
            self.exit_search_mode();
            self.focus = Focus::Content;
            self.doc_search_query = query;
            self.mode = AppMode::DocumentSearch;
            Some(path)
        } else {
            None
        }
    }

    /// The paths of every file in the sidebar tree.
    pub fn collect_all_files(&self) -> (r: Vec<String>)
        ensures
            r.deep_view() == files_of(self.tree@),
    {
        self.tree.collect_all_files()
    }
}

/// Whether a row names a readme file: a file whose lowercased name is
/// `readme.md` or `readme.markdown`.
pub open spec fn is_readme_name(t: TreeView) -> bool {
    !t.is_dir && (lower_of(t.name) == "readme.md"@ || lower_of(t.name) == "readme.markdown"@)
}

/// The first visible row that is a readme file.
pub open spec fn first_readme(items: Seq<TreeView>) -> Option<int>
    decreases items.len(),
{
    if items.len() == 0 {
        None
    } else if is_readme_name(items[0]) {
        Some(0int)
    } else {
        match first_readme(items.drop_first()) {
            Some(i) => Some(i + 1),
            None => None,
        }
    }
}

/// The first visible row that is a file.
pub open spec fn first_file(items: Seq<TreeView>) -> Option<int>
    decreases items.len(),
{
    if items.len() == 0 {
        None
    } else if !items[0].is_dir {
        Some(0int)
    } else {
        match first_file(items.drop_first()) {
            Some(i) => Some(i + 1),
            None => None,
        }
    }
}

proof fn lemma_first_readme_is(items: Seq<TreeView>, i: int)
    requires
        0 <= i < items.len(),
        is_readme_name(items[i]),
        forall|k: int| 0 <= k < i ==> !is_readme_name(#[trigger] items[k]),
    ensures
        first_readme(items) == Some(i),
    decreases i,
{
    if i > 0 {
        assert(!is_readme_name(items[0]));
        assert(items.drop_first()[i - 1] == items[i]);
        assert forall|k: int| 0 <= k < i - 1 implies !is_readme_name(
            #[trigger] items.drop_first()[k],
        ) by {
            assert(items.drop_first()[k] == items[k + 1]);
        }
        lemma_first_readme_is(items.drop_first(), i - 1);
    }
}

proof fn lemma_first_readme_none(items: Seq<TreeView>)
    requires
        forall|k: int| 0 <= k < items.len() ==> !is_readme_name(#[trigger] items[k]),
    ensures
        first_readme(items) is None,
    decreases items.len(),
{
    if items.len() > 0 {
        assert forall|k: int| 0 <= k < items.drop_first().len() implies !is_readme_name(
            #[trigger] items.drop_first()[k],
        ) by {
            assert(items.drop_first()[k] == items[k + 1]);
        }
        lemma_first_readme_none(items.drop_first());
    }
}

proof fn lemma_first_file_is(items: Seq<TreeView>, i: int)
    requires
        0 <= i < items.len(),
        !items[i].is_dir,
        forall|k: int| 0 <= k < i ==> (#[trigger] items[k]).is_dir,
    ensures
        first_file(items) == Some(i),
    decreases i,
{
    if i > 0 {
        assert(items[0].is_dir);
        assert(items.drop_first()[i - 1] == items[i]);
        assert forall|k: int| 0 <= k < i - 1 implies (#[trigger] items.drop_first()[
            k
        ]).is_dir by {
            assert(items.drop_first()[k] == items[k + 1]);
        }
        lemma_first_file_is(items.drop_first(), i - 1);
    }
}

proof fn lemma_first_file_none(items: Seq<TreeView>)
    requires
        forall|k: int| 0 <= k < items.len() ==> (#[trigger] items[k]).is_dir,
    ensures
        first_file(items) is None,
    decreases items.len(),
{
    if items.len() > 0 {
        assert forall|k: int| 0 <= k < items.drop_first().len() implies (
        #[trigger] items.drop_first()[k]).is_dir by {
            assert(items.drop_first()[k] == items[k + 1]);
        }
        lemma_first_file_none(items.drop_first());
    }
}

impl App {
    /// Select the first readme file of the tree, or failing that the first
    /// file, and hand back its path for the caller to load.
    pub fn select_first_file(&mut self) -> (r: Option<String>)
        ensures
            *final(self) == (App { selected_index: final(self).selected_index, ..*old(self) }),
            ({
                let items = visible_of(old(self).tree@);
                match first_readme(items) {
                    Some(i) => final(self).selected_index == i && (r matches Some(p) && p@
                        == items[i].path),
                    None => match first_file(items) {
                        Some(i) => final(self).selected_index == i && (r matches Some(p) && p@
                            == items[i].path),
                        None => final(self).selected_index == old(self).selected_index
                            && r is None,
                    },
                }
            }),
    {
        let ghost iv = visible_of(self.tree@);
        let mut choice: Option<(usize, String)> = None;
        {
            let items = self.tree.visible_items();
            match find_readme_idx(&items) {
                Some(i) => {
                    proof {
                        assert(refs_view(items@)[i as int] == items@[i as int]@);
                    }
                    choice = Some((i, items[i].path.clone()));
                }
                None => {
                    match find_file_idx(&items) {
                        Some(i) => {
                            proof {
                                assert(refs_view(items@)[i as int] == items@[i as int]@);
                            }
                            choice = Some((i, items[i].path.clone()));
                        }
                        None => {}
                    }
                }
            }
        }
        match choice {
            Some((idx, path)) => {
                self.selected_index = idx;
                Some(path)
            }
            None => None,
        }
    }
}

/// The index of the first readme row, if any.
fn find_readme_idx(items: &Vec<&TreeNode>) -> (r: Option<usize>)
    ensures
        match r {
            Some(i) => i < items@.len() && first_readme(refs_view(items@)) == Some(i as int),
            None => first_readme(refs_view(items@)) is None,
        },
{
    let ghost iv = refs_view(items@);
    let mut i: usize = 0;
    while i < items.len()
        invariant
            i <= items@.len(),
            iv == refs_view(items@),
            iv.len() == items@.len(),
            forall|k: int| 0 <= k < i ==> !is_readme_name(#[trigger] iv[k]),
        decreases items@.len() - i,
    {
        proof {
            assert(refs_view(items@)[i as int] == items@[i as int]@);
        }
        if !items[i].is_dir {
            let lowered = to_lower(items[i].name.as_str());
            let hit = str_eq(lowered.as_str(), "readme.md") || str_eq(
                lowered.as_str(),
                "readme.markdown",
            );
            if hit {
                proof {
                    lemma_first_readme_is(iv, i as int);
                }
                return Some(i);
            }
        }
        i = i + 1;
    }
    proof {
        lemma_first_readme_none(iv);
    }
    None
}

/// The index of the first file row, if any.
fn find_file_idx(items: &Vec<&TreeNode>) -> (r: Option<usize>)
    ensures
        match r {
            Some(i) => i < items@.len() && first_file(refs_view(items@)) == Some(i as int),
            None => first_file(refs_view(items@)) is None,
        },
{
    let ghost iv = refs_view(items@);
    let mut i: usize = 0;
    while i < items.len()
        invariant
            i <= items@.len(),
            iv == refs_view(items@),
            iv.len() == items@.len(),
            forall|k: int| 0 <= k < i ==> (#[trigger] iv[k]).is_dir,
        decreases items@.len() - i,
    {
        proof {
            assert(refs_view(items@)[i as int] == items@[i as int]@);
        }
        if !items[i].is_dir {
            proof {
                lemma_first_file_is(iv, i as int);
            }
            return Some(i);
        }
        i = i + 1;
    }
    proof {
        lemma_first_file_none(iv);
    }
    None
}

} // verus!
