//! The explorer's state: the selected layer and tree node, the panes, the
//! filter, the collapsed directories and the modal dialogs.
use vstd::prelude::*;
use crate::config::Config;
use crate::filetree::{
    DiffType, FileTree, NodeOp, NodeView, SortMode, TarEntryType, path_key, shown_paths,
    strings_view, transform_map,
};
use crate::matching::{regex_compiles, regex_valid};
use crate::paths::{PathKey, join_path};
use crate::text::{append_chars, has_suffix, trim_start_char};
use crate::filetree::{lemma_shown_paths_distinct, lookup};
use crate::utils::{expand_tilde, str_opt, tilde_expansion};
use crate::image::Image;
use crate::text::{
    chars_eq, chars_eq_ignore_case, eq_ignore_case, push_char, str_to_chars, string_chars,
    vec_to_string,
};

verus! {

/// Display data for a single layer in the layer list.
#[derive(Debug)]
pub struct LayerData {
    pub index: usize,
    pub command: String,
    pub size: u64,
}

/// The panes that can hold the focus.
#[derive(Debug, Clone, Copy, PartialEq, Eq, Structural)]
pub enum FocusPane {
    LayerList,
    FileTree,
    LayerDetails,
    ImageDetails,
}

impl Default for FocusPane {
    fn default() -> (r: Self)
        ensures
            r == FocusPane::LayerList,
    {
        FocusPane::LayerList
    }
}


impl FocusPane {
    /// The next pane in the cycle LayerList, FileTree, LayerDetails,
    /// ImageDetails, and back to LayerList.
    pub fn next(self) -> (r: Self)
        ensures
            r == self.next_spec(),
    {
        match self {
            FocusPane::LayerList => FocusPane::FileTree,
            FocusPane::FileTree => FocusPane::LayerDetails,
            FocusPane::LayerDetails => FocusPane::ImageDetails,
            FocusPane::ImageDetails => FocusPane::LayerList,
        }
    }

    /// The previous pane in the cycle.
    pub fn prev(self) -> (r: Self)
        ensures
            r == self.prev_spec(),
    {
        match self {
            FocusPane::LayerList => FocusPane::ImageDetails,
            FocusPane::FileTree => FocusPane::LayerList,
            FocusPane::LayerDetails => FocusPane::FileTree,
            FocusPane::ImageDetails => FocusPane::LayerDetails,
        }
    }
}

/// Which layers the file tree compares.
#[derive(Debug, Clone, Copy, PartialEq, Eq, Structural)]
pub enum CompareMode {
    /// Each layer against the layers below it.
    Natural,
    /// All layers up to the selected one against the base layer.
    Aggregated,
}

impl Default for CompareMode {
    fn default() -> (r: Self)
        ensures
            r == CompareMode::Natural,
    {
        CompareMode::Natural
    }
}

/// The modal dialog on top of the panes, if any.
#[derive(Debug)]
pub enum ModalState {
    Closed,
    ExtractTo { destination: String, original_path: String },
    OpenImage { url: String },
    DetailField { label: String },
}

/// The mathematical value of a [`ModalState`].
pub enum ModalView {
    Closed,
    ExtractTo { destination: Seq<char>, original_path: Seq<char> },
    OpenImage { url: Seq<char> },
    DetailField { label: Seq<char> },
}

impl View for ModalState {
    type V = ModalView;

    open spec fn view(&self) -> ModalView {
        match self {
            ModalState::Closed => ModalView::Closed,
            ModalState::ExtractTo { destination, original_path } => ModalView::ExtractTo {
                destination: destination@,
                original_path: original_path@,
            },
            ModalState::OpenImage { url } => ModalView::OpenImage { url: url@ },
            ModalState::DetailField { label } => ModalView::DetailField { label: label@ },
        }
    }
}

impl Default for ModalState {
    fn default() -> (r: Self)
        ensures
            r@ == ModalView::Closed,
    {
        ModalState::Closed
    }
}

/// Mutable application state of the explorer.
pub struct AppState {
    pub image: Image,
    pub config: Config,
    pub selected_layer: usize,
    pub collapsed_paths: Vec<String>,
    pub hidden_diff_types: Vec<DiffType>,
    pub sort_mode: SortMode,
    pub compare_mode: CompareMode,
    pub focus: FocusPane,
    pub show_attributes: bool,
    pub filter_text: String,
    pub is_filter_active: bool,
    pub selected_tree_path: Option<String>,
    pub tree_scroll_offset: usize,
    pub wrap_tree: bool,
    pub status_message: Option<String>,
    pub report: Option<crate::report::Report>,
    pub modal: ModalState,
    pub selected_detail_field: usize,
    pub image_details_scroll: usize,
}

/// The set of strings held in `v`.
pub open spec fn string_set(v: Seq<String>) -> Set<Seq<char>> {
    Set::new(|s: Seq<char>| exists|i: int| 0 <= i < v.len() && (#[trigger] v[i])@ == s)
}

/// The compare mode a configured name selects.
pub open spec fn compare_mode_of(name: Option<Seq<char>>) -> CompareMode {
    match name {
        Some(s) => if eq_ignore_case(s, "aggregated"@) {
            CompareMode::Aggregated
        } else {
            CompareMode::Natural
        },
        None => CompareMode::Natural,
    }
}

/// The sort mode a configured name selects.
pub open spec fn sort_mode_of(name: Option<Seq<char>>) -> SortMode {
    match name {
        Some(s) => if eq_ignore_case(s, "size"@) {
            SortMode::Size
        } else {
            SortMode::Name
        },
        None => SortMode::Name,
    }
}

/// The characters of an optional string.
pub open spec fn opt_view(o: Option<String>) -> Option<Seq<char>> {
    match o {
        Some(s) => Some(s@),
        None => None,
    }
}


fn mode_name_is(name: &Option<String>, word: &str) -> (r: bool)
    ensures
        r == (name matches Some(s) && eq_ignore_case(s@, word@)),
{
    match name {
        Some(s) => {
            let a = string_chars(s);
            let b = str_to_chars(word);
            chars_eq_ignore_case(&a, &b)
        },
        None => false,
    }
}

impl AppState {
    /// The state for `image` under the default configuration.
    pub fn new(image: Image) -> (r: Self)
        ensures
            r.image == image,
            r.selected_layer == if image.layers@.len() == 0 {
                0
            } else {
                image.layers@.len() - 1
            },
            r.collapsed_paths@.len() == 0,
            r.hidden_diff_types@.len() == 0,
            r.sort_mode == SortMode::Name,
            r.compare_mode == CompareMode::Natural,
            r.focus == FocusPane::LayerList,
            !r.show_attributes,
            !r.wrap_tree,
            r.filter_text@.len() == 0,
            !r.is_filter_active,
            r.selected_tree_path is None,
            r.tree_scroll_offset == 0,
            r.status_message is None,
            r.report is None,
            r.modal@ == ModalView::Closed,
            r.selected_detail_field == 0,
            r.image_details_scroll == 0,
            r.config.keybindings@.len() == 0,
            r.config.compare_mode is None,
            r.config.sort_mode is None,
            r.config.show_attributes is None,
            r.config.wrap_tree is None,
            r.config.extract.default_directory is None,
    {
        Self::with_config(image, Config::default())
    }

    /// The state for `image` under `config`: the top layer selected, the
    /// configured compare and sort modes (by name, ignoring ASCII case) and
    /// display switches, everything else cleared.
    pub fn with_config(image: Image, config: Config) -> (r: Self)
        ensures
            r.image == image,
            r.selected_layer == if image.layers@.len() == 0 {
                0
            } else {
                image.layers@.len() - 1
            },
            r.compare_mode == compare_mode_of(opt_view(config.compare_mode)),
            r.sort_mode == sort_mode_of(opt_view(config.sort_mode)),
            r.show_attributes == (config.show_attributes == Some(true)),
            r.wrap_tree == (config.wrap_tree == Some(true)),
            r.config == config,
            r.collapsed_paths@.len() == 0,
            r.hidden_diff_types@.len() == 0,
            r.focus == FocusPane::LayerList,
            r.filter_text@.len() == 0,
            !r.is_filter_active,
            r.selected_tree_path is None,
            r.tree_scroll_offset == 0,
            r.status_message is None,
            r.report is None,
            r.modal@ == ModalView::Closed,
            r.selected_detail_field == 0,
            r.image_details_scroll == 0,
    {
        let selected_layer = if image.layers.len() == 0 {
            0
        } else {
            image.layers.len() - 1
        };
        let compare_mode = if mode_name_is(&config.compare_mode, "aggregated") {
            CompareMode::Aggregated
        } else {
            CompareMode::Natural
        };
        let sort_mode = if mode_name_is(&config.sort_mode, "size") {
            SortMode::Size
        } else {
            SortMode::Name
        };
        let show_attributes = match config.show_attributes {
            Some(b) => b,
            None => false,
        };
        let wrap_tree = match config.wrap_tree {
            Some(b) => b,
            None => false,
        };
        AppState {
            image,
            config,
            selected_layer,
            collapsed_paths: Vec::new(),
            hidden_diff_types: Vec::new(),
            sort_mode,
            compare_mode,
            focus: FocusPane::LayerList,
            show_attributes,
            filter_text: String::new(),
            is_filter_active: false,
            selected_tree_path: None,
            tree_scroll_offset: 0,
            wrap_tree,
            status_message: None,
            report: None,
            modal: ModalState::Closed,
            selected_detail_field: 0,
            image_details_scroll: 0,
        }
    }

    /// Index, command and size of every layer.
    pub fn layers(&self) -> (r: Vec<LayerData>)
        ensures
            r@.len() == self.image.layers@.len(),
            forall|i: int|
                0 <= i < r@.len() ==> {
                    let l = #[trigger] self.image.layers@[i];
                    &&& r@[i].index == l.index
                    &&& r@[i].command@ == l.command@
                    &&& r@[i].size == l.size
                },
    {
        let mut out: Vec<LayerData> = Vec::new();
        let mut i: usize = 0;
        while i < self.image.layers.len()
            invariant
                i <= self.image.layers@.len(),
                out@.len() == i,
                forall|j: int|
                    0 <= j < i ==> {
                        let l = #[trigger] self.image.layers@[j];
                        &&& out@[j].index == l.index
                        &&& out@[j].command@ == l.command@
                        &&& out@[j].size == l.size
                    },
            decreases self.image.layers@.len() - i,
        {
            let l = &self.image.layers[i];
            out.push(LayerData { index: l.index, command: l.command.clone(), size: l.size });
            i = i + 1;
        }
        out
    }

    pub fn layer_count(&self) -> (r: usize)
        ensures
            r == self.image.layers@.len(),
    {
        self.image.layers.len()
    }

    /// Selects the layer above, if there is one, and clears the tree selection.
    pub fn select_next_layer(&mut self)
        ensures
            *final(self) == old(self).layer_above(),
            old(self).selected_layer + 1 < old(self).image.layers@.len() ==> final(self).selected_layer
                == old(self).selected_layer + 1,
    {
        if self.selected_layer < self.image.layers.len() && self.selected_layer + 1
            < self.image.layers.len() {
            self.selected_layer = self.selected_layer + 1;
            self.selected_tree_path = None;
            self.tree_scroll_offset = 0;
        }
    }

    /// Selects the layer below, if there is one, and clears the tree selection.
    pub fn select_prev_layer(&mut self)
        ensures
            *final(self) == old(self).layer_below(),
    {
        if self.selected_layer > 0 {
            self.selected_layer = self.selected_layer - 1;
            self.selected_tree_path = None;
            self.tree_scroll_offset = 0;
        }
    }

    /// Moves the focus to the next pane.
    pub fn cycle_focus(&mut self)
        ensures
            *final(self) == (AppState { focus: old(self).focus.next_spec(), ..*old(self) }),
    {
        self.focus = self.focus.next();
    }

    /// Moves the focus to the previous pane.
    pub fn cycle_focus_reverse(&mut self)
        ensures
            *final(self) == (AppState { focus: old(self).focus.prev_spec(), ..*old(self) }),
    {
        self.focus = self.focus.prev();
    }

    pub fn toggle_sort_mode(&mut self)
        ensures
            *final(self) == old(self).sort_toggled(),
    {
        self.sort_mode = match self.sort_mode {
            SortMode::Name => SortMode::Size,
            SortMode::Size => SortMode::Name,
        };
    }

    pub fn toggle_show_attributes(&mut self)
        ensures
            *final(self) == old(self).attributes_toggled(),
    {
        self.show_attributes = !self.show_attributes;
    }

    pub fn toggle_wrap_tree(&mut self)
        ensures
            *final(self) == old(self).wrap_toggled(),
    {
        self.wrap_tree = !self.wrap_tree;
    }

    /// Hides the nodes marked `diff_type`, or shows them again if hidden.
    pub fn toggle_diff_type(&mut self, diff_type: DiffType)
        ensures
            toggles_member(old(self).hidden_diff_types@, final(self).hidden_diff_types@, diff_type),
            *final(self) == (AppState { hidden_diff_types: final(self).hidden_diff_types, ..*old(self) }),
    {
        let ghost before = self.hidden_diff_types@;
        let mut found = false;
        let mut kept: Vec<DiffType> = Vec::new();
        let mut i: usize = 0;
        proof {
            assert(before.take(0) =~= Seq::<DiffType>::empty());
        }
        while i < self.hidden_diff_types.len()
            invariant
                before == self.hidden_diff_types@,
                i <= before.len(),
                found == before.take(i as int).contains(diff_type),
                forall|d: DiffType| d != diff_type ==> (#[trigger] kept@.contains(d) == before.take(i as int).contains(d)),
                !kept@.contains(diff_type),
            decreases before.len() - i,
        {
            let d = self.hidden_diff_types[i];
            let ghost prev = before.take(i as int);
            proof {
                assert(before.take(i + 1) =~= prev.push(d));
                assert forall|e: DiffType| #[trigger] before.take(i + 1).contains(e) == (prev.contains(e) || e == d) by {
                    lemma_contains_push(prev, d, e);
                }
            }
            if d == diff_type {
                found = true;
            } else {
                let ghost kb = kept@;
                kept.push(d);
                proof {
                    assert forall|e: DiffType| #[trigger] kept@.contains(e) == (kb.contains(e) || e == d) by {
                        lemma_contains_push(kb, d, e);
                    }
                }
            }
            i = i + 1;
        }
        proof {
            assert(before.take(before.len() as int) =~= before);
        }
        if found {
            self.hidden_diff_types = kept;
        } else {
            self.hidden_diff_types.push(diff_type);
            proof {
                assert forall|e: DiffType| #[trigger] self.hidden_diff_types@.contains(e) == (before.contains(e) || e == diff_type) by {
                    lemma_contains_push(before, diff_type, e);
                }
            }
        }
    }

    /// Opens or closes the filter; closing it clears the filter text. Either
    /// way the tree scrolls to the top and its selection is cleared.
    pub fn toggle_filter_active(&mut self)
        ensures
            final(self).filter_text@ == if old(self).is_filter_active {
                Seq::<char>::empty()
            } else {
                old(self).filter_text@
            },
            *final(self) == (AppState {
                is_filter_active: !old(self).is_filter_active,
                filter_text: final(self).filter_text,
                tree_scroll_offset: 0,
                selected_tree_path: None,
                ..*old(self)
            }),
    {
        self.is_filter_active = !self.is_filter_active;
        if !self.is_filter_active {
            self.filter_text = String::new();
        }
        self.tree_scroll_offset = 0;
        self.selected_tree_path = None;
    }

    /// Types a character into the filter.
    pub fn push_filter_char(&mut self, c: char)
        ensures
            final(self).filter_text@ == old(self).filter_text@.push(c),
            *final(self) == (AppState { filter_text: final(self).filter_text, tree_scroll_offset: 0, ..*old(self) }),
    {
        push_char(&mut self.filter_text, c);
        self.tree_scroll_offset = 0;
    }

    /// Erases the last character of the filter, if any.
    pub fn pop_filter_char(&mut self)
        ensures
            final(self).filter_text@ == drop_last_char(old(self).filter_text@),
            *final(self) == (AppState { filter_text: final(self).filter_text, tree_scroll_offset: 0, ..*old(self) }),
    {
        self.filter_text = pop_last(&self.filter_text);
        self.tree_scroll_offset = 0;
    }

    /// Closes the modal dialog.
    pub fn cancel_modal(&mut self)
        ensures
            final(self).modal@ == ModalView::Closed,
            *final(self) == (AppState { modal: final(self).modal, ..*old(self) }),
    {
        self.modal = ModalState::Closed;
    }

    pub fn is_modal_active(&self) -> (r: bool)
        ensures
            r == !(self.modal@ is Closed),
    {
        match self.modal {
            ModalState::Closed => false,
            _ => true,
        }
    }

    /// The text being typed in the modal dialog, if it takes input.
    pub fn modal_input(&self) -> (r: Option<&str>)
        ensures
            match self.modal@ {
                ModalView::ExtractTo { destination, .. } => r matches Some(s) && s@ == destination,
                ModalView::OpenImage { url } => r matches Some(s) && s@ == url,
                _ => r is None,
            },
    {
        match &self.modal {
            ModalState::ExtractTo { destination, .. } => Some(destination.as_str()),
            ModalState::OpenImage { url } => Some(url.as_str()),
            _ => None,
        }
    }

    /// The destination typed in the extract dialog, if it is open.
    pub fn modal_destination(&self) -> (r: Option<&str>)
        ensures
            match self.modal@ {
                ModalView::ExtractTo { destination, .. } => r matches Some(s) && s@ == destination,
                _ => r is None,
            },
    {
        match &self.modal {
            ModalState::ExtractTo { destination, .. } => Some(destination.as_str()),
            _ => None,
        }
    }

    /// Types a character into the modal dialog, if it takes input.
    pub fn push_modal_char(&mut self, c: char)
        ensures
            final(self).modal@ == match old(self).modal@ {
                ModalView::ExtractTo { destination, original_path } => ModalView::ExtractTo {
                    destination: destination.push(c),
                    original_path,
                },
                ModalView::OpenImage { url } => ModalView::OpenImage { url: url.push(c) },
                other => other,
            },
            *final(self) == (AppState { modal: final(self).modal, ..*old(self) }),
    {
        match &mut self.modal {
            ModalState::ExtractTo { destination, .. } => push_char(destination, c),
            ModalState::OpenImage { url } => push_char(url, c),
            _ => {},
        }
    }

    /// Erases the last character typed in the modal dialog, if any.
    pub fn pop_modal_char(&mut self)
        ensures
            final(self).modal@ == match old(self).modal@ {
                ModalView::ExtractTo { destination, original_path } => ModalView::ExtractTo {
                    destination: drop_last_char(destination),
                    original_path,
                },
                ModalView::OpenImage { url } => ModalView::OpenImage { url: drop_last_char(url) },
                other => other,
            },
            *final(self) == (AppState { modal: final(self).modal, ..*old(self) }),
    {
        match &mut self.modal {
            ModalState::ExtractTo { destination, .. } => {
                let d = pop_last(destination);
                *destination = d;
            },
            ModalState::OpenImage { url } => {
                let u = pop_last(url);
                *url = u;
            },
            _ => {},
        }
    }

    /// Opens the "open image" dialog with `current_url` typed in.
    pub fn open_image_modal(&mut self, current_url: &str)
        ensures
            final(self).modal@ == (ModalView::OpenImage { url: current_url@ }),
            *final(self) == (AppState { modal: final(self).modal, ..*old(self) }),
    {
        self.modal = ModalState::OpenImage { url: current_url.to_owned() };
    }

    /// Closes the modal dialog; the URL typed if it was the "open image" one.
    pub fn confirm_open_image_modal(&mut self) -> (r: Option<String>)
        ensures
            match old(self).modal@ {
                ModalView::OpenImage { url } => r matches Some(u) && u@ == url,
                _ => r is None,
            },
            final(self).modal@ == ModalView::Closed,
            *final(self) == (AppState { modal: final(self).modal, ..*old(self) }),
    {
        let url = match &self.modal {
            ModalState::OpenImage { url } => Some(url.clone()),
            _ => None,
        };
        self.modal = ModalState::Closed;
        url
    }

    pub fn clear_status_message(&mut self)
        ensures
            *final(self) == (AppState { status_message: None, ..*old(self) }),
    {
        self.status_message = None;
    }
}

impl FocusPane {
    pub open spec fn next_spec(self) -> FocusPane {
        match self {
            FocusPane::LayerList => FocusPane::FileTree,
            FocusPane::FileTree => FocusPane::LayerDetails,
            FocusPane::LayerDetails => FocusPane::ImageDetails,
            FocusPane::ImageDetails => FocusPane::LayerList,
        }
    }

    pub open spec fn prev_spec(self) -> FocusPane {
        match self {
            FocusPane::LayerList => FocusPane::ImageDetails,
            FocusPane::FileTree => FocusPane::LayerList,
            FocusPane::LayerDetails => FocusPane::FileTree,
            FocusPane::ImageDetails => FocusPane::LayerDetails,
        }
    }
}

/// Pushing `x` adds exactly `x` to what `s` contains.
pub proof fn lemma_contains_push<T>(s: Seq<T>, x: T, e: T)
    ensures
        s.push(x).contains(e) == (s.contains(e) || e == x),
{
    if s.contains(e) {
        let j = choose|j: int| 0 <= j < s.len() && s[j] == e;
        assert(s.push(x)[j] == e);
    }
    if e == x {
        assert(s.push(x)[s.len() as int] == e);
    }
    if s.push(x).contains(e) {
        let j = choose|j: int| 0 <= j < s.push(x).len() && s.push(x)[j] == e;
        if j < s.len() {
            assert(s[j] == e);
        }
    }
}

/// `s` without its last character (an empty `s` stays empty).
pub open spec fn drop_last_char(s: Seq<char>) -> Seq<char> {
    if s.len() == 0 {
        s
    } else {
        s.drop_last()
    }
}

/// A copy of `s` without its last character.
fn pop_last(s: &String) -> (r: String)
    ensures
        r@ == drop_last_char(s@),
{
    let mut v = string_chars(s);
    if v.len() > 0 {
        v.pop();
    }
    vec_to_string(&v)
}

/// The pattern the file tree is filtered by: the filter text, when the filter
/// is open, the text non-empty and a valid regular expression.
pub open spec fn active_pattern(st: AppState) -> Option<Seq<char>> {
    if st.is_filter_active && st.filter_text@.len() > 0 && regex_compiles(st.filter_text@) {
        Some(st.filter_text@)
    } else {
        None
    }
}

/// The paths listed in the file tree `tree` under the state's filters.
pub open spec fn listed_paths(st: AppState, tree: FileTree) -> Seq<Seq<char>> {
    shown_paths(tree.nodes(), tree.ordered_keys(), st.hidden_diff_types@, active_pattern(st))
}

/// Position of the first `x` in `s` (`-1` when absent).
pub open spec fn first_index(s: Seq<Seq<char>>, x: Seq<char>) -> int
    decreases s.len(),
{
    if s.len() == 0 {
        -1
    } else if s[0] == x {
        0
    } else {
        let r = first_index(s.drop_first(), x);
        if r < 0 {
            -1
        } else {
            r + 1
        }
    }
}

/// The selection after moving down the list `paths`.
pub open spec fn next_selection(paths: Seq<Seq<char>>, sel: Option<Seq<char>>) -> Option<Seq<char>> {
    if paths.len() == 0 {
        None
    } else {
        let i = match sel {
            Some(p) => {
                let j = first_index(paths, p);
                if j < 0 {
                    0
                } else if j + 1 < paths.len() {
                    j + 1
                } else {
                    paths.len() - 1
                }
            },
            None => 0,
        };
        Some(paths[i])
    }
}

/// The selection after moving up the list `paths`.
pub open spec fn prev_selection(paths: Seq<Seq<char>>, sel: Option<Seq<char>>) -> Option<Seq<char>> {
    if paths.len() == 0 {
        None
    } else {
        let i = match sel {
            Some(p) => {
                let j = first_index(paths, p);
                if j <= 0 {
                    0
                } else {
                    j - 1
                }
            },
            None => 0,
        };
        Some(paths[i])
    }
}

/// The entries after collapsing the one at `path`, if there is one.
pub open spec fn collapse_at(m: Map<PathKey, NodeView>, path: Seq<char>) -> Map<PathKey, NodeView> {
    if trim_start_char(path, '/').len() > 0 && m.contains_key(path_key(path)) {
        m.insert(path_key(path), NodeView { collapsed: true, ..m[path_key(path)] })
    } else {
        m
    }
}

/// The entries after collapsing each of `paths` in turn.
pub open spec fn collapse_each(m: Map<PathKey, NodeView>, paths: Seq<Seq<char>>) -> Map<PathKey, NodeView>
    decreases paths.len(),
{
    if paths.len() == 0 {
        m
    } else {
        collapse_at(collapse_each(m, paths.drop_last()), paths.last())
    }
}

/// The joined paths of the directories of a tree, in tree order.
pub open spec fn directory_list(tree: FileTree) -> Seq<Seq<char>> {
    tree.ordered_keys().filter_map(
        |q: PathKey|
            if tree.nodes()[q].info.entry_type == TarEntryType::Directory {
                Some(join_path(q))
            } else {
                None
            },
    )
}

fn first_index_exec(v: &Vec<String>, x: &String) -> (r: Option<usize>)
    ensures
        match r {
            Some(i) => first_index(strings_view(v@), x@) == i && i < v@.len(),
            None => first_index(strings_view(v@), x@) == -1,
        },
{
    let ghost sv = strings_view(v@);
    let xc = string_chars(x);
    let mut i: usize = 0;
    proof {
        assert(sv.skip(0) =~= sv);
    }
    while i < v.len()
        invariant
            sv == strings_view(v@),
            xc@ == x@,
            i <= v@.len(),
            forall|j: int| 0 <= j < i ==> sv[j] != x@,
            first_index(sv, x@) == if first_index(sv.skip(i as int), x@) < 0 {
                -1
            } else {
                first_index(sv.skip(i as int), x@) + i
            },
        decreases v@.len() - i,
    {
        let c = string_chars(&v[i]);
        proof {
            assert(sv.skip(i as int)[0] == sv[i as int]);
            assert(sv.skip(i as int).drop_first() =~= sv.skip(i + 1));
        }
        if chars_eq(&c, &xc) {
            return Some(i);
        }
        i = i + 1;
    }
    proof {
        assert(sv.skip(i as int).len() == 0);
    }
    None
}

/// Whether some string of `v` is `x`.
fn strings_contain(v: &Vec<String>, x: &str) -> (r: bool)
    ensures
        r == string_set(v@).contains(x@),
{
    let xc = str_to_chars(x);
    let mut i: usize = 0;
    while i < v.len()
        invariant
            xc@ == x@,
            i <= v@.len(),
            forall|j: int| 0 <= j < i ==> (#[trigger] v@[j])@ != x@,
        decreases v@.len() - i,
    {
        let c = string_chars(&v[i]);
        if chars_eq(&c, &xc) {
            assert(v@[i as int]@ == x@);
            return true;
        }
        i = i + 1;
    }
    false
}

/// `v` without the strings equal to `x`.
pub(crate) fn strings_without(v: &Vec<String>, x: &String) -> (r: Vec<String>)
    ensures
        string_set(r@) == string_set(v@).remove(x@),
{
    let xc = string_chars(x);
    let mut out: Vec<String> = Vec::new();
    let mut i: usize = 0;
    while i < v.len()
        invariant
            xc@ == x@,
            i <= v@.len(),
            string_set(out@) == string_set(v@.take(i as int)).remove(x@),
        decreases v@.len() - i,
    {
        let c = string_chars(&v[i]);
        let ghost ob = out@;
        proof {
            assert(v@.take(i + 1) =~= v@.take(i as int).push(v@[i as int]));
            lemma_string_set_push(v@.take(i as int), v@[i as int]);
        }
        if !chars_eq(&c, &xc) {
            out.push(v[i].clone());
            proof {
                lemma_string_set_push(ob, out@.last());
                assert(out@ =~= ob.push(out@.last()));
            }
        }
        proof {
            assert(string_set(out@) =~= string_set(v@.take(i + 1)).remove(x@));
        }
        i = i + 1;
    }
    proof {
        assert(v@.take(v@.len() as int) =~= v@);
    }
    out
}

/// Pushing a string adds it to the set.
pub proof fn lemma_string_set_push(v: Seq<String>, x: String)
    ensures
        string_set(v.push(x)) == string_set(v).insert(x@),
{
    assert forall|s: Seq<char>| #[trigger] string_set(v.push(x)).contains(s) == string_set(v).insert(x@).contains(s) by {
        if string_set(v.push(x)).contains(s) {
            let j = choose|j: int| 0 <= j < v.push(x).len() && (#[trigger] v.push(x)[j])@ == s;
            if j < v.len() {
                assert(v[j] == v.push(x)[j]);
            }
        }
        if string_set(v).contains(s) {
            let j = choose|j: int| 0 <= j < v.len() && (#[trigger] v[j])@ == s;
            assert(v.push(x)[j] == v[j]);
        }
        if s == x@ {
            assert(v.push(x)[v.len() as int] == x);
        }
    }
    assert(string_set(v.push(x)) =~= string_set(v).insert(x@));
}

impl AppState {
    /// The filter pattern, when the filter is open and its text is a
    /// non-empty valid regular expression.
    pub fn filter_regex(&self) -> (r: Option<&str>)
        ensures
            match r {
                Some(p) => active_pattern(*self) == Some(p@),
                None => active_pattern(*self) is None,
            },
    {
        if self.is_filter_active && self.filter_text.as_str().unicode_len() > 0 && regex_valid(
            self.filter_text.as_str(),
        ) {
            Some(self.filter_text.as_str())
        } else {
            None
        }
    }

    /// The paths listed in `tree` under the hidden marks and the filter.
    pub fn filtered_visible_paths(&self, tree: &FileTree) -> (r: Vec<String>)
        requires
            tree.wf(),
        ensures
            strings_view(r@) == listed_paths(*self, *tree),
            strings_view(r@).no_duplicates(),
    {
        proof {
            lemma_shown_paths_distinct(*tree, self.hidden_diff_types@, active_pattern(*self));
        }
        tree.visible_paths_filtered(&self.hidden_diff_types, self.filter_regex())
    }

    /// Moves the tree selection down: to the path after the selected one
    /// (staying on the last), or to the first path when the selection is not
    /// listed; none when nothing is listed.
    pub fn select_next_tree_node(&mut self, tree: &FileTree)
        requires
            tree.wf(),
        ensures
            opt_view(final(self).selected_tree_path) == next_selection(
                listed_paths(*old(self), *tree),
                opt_view(old(self).selected_tree_path),
            ),
            *final(self) == (AppState { selected_tree_path: final(self).selected_tree_path, ..*old(self) }),
    {
        let paths = self.filtered_visible_paths(tree);
        let ghost pv = strings_view(paths@);
        if paths.len() == 0 {
            self.selected_tree_path = None;
            return;
        }
        let next_index: usize = match &self.selected_tree_path {
            Some(path) => match first_index_exec(&paths, path) {
                Some(i) => if i + 1 < paths.len() {
                    i + 1
                } else {
                    paths.len() - 1
                },
                None => 0,
            },
            None => 0,
        };
        assert(pv[next_index as int] == paths@[next_index as int]@);
        self.selected_tree_path = Some(paths[next_index].clone());
    }

    /// Moves the tree selection up: to the path before the selected one
    /// (staying on the first), or to the first path when the selection is not
    /// listed; none when nothing is listed.
    pub fn select_prev_tree_node(&mut self, tree: &FileTree)
        requires
            tree.wf(),
        ensures
            opt_view(final(self).selected_tree_path) == prev_selection(
                listed_paths(*old(self), *tree),
                opt_view(old(self).selected_tree_path),
            ),
            *final(self) == (AppState { selected_tree_path: final(self).selected_tree_path, ..*old(self) }),
    {
        let paths = self.filtered_visible_paths(tree);
        let ghost pv = strings_view(paths@);
        if paths.len() == 0 {
            self.selected_tree_path = None;
            return;
        }
        let prev_index: usize = match &self.selected_tree_path {
            Some(path) => match first_index_exec(&paths, path) {
                Some(i) => if i > 0 {
                    i - 1
                } else {
                    0
                },
                None => 0,
            },
            None => 0,
        };
        assert(pv[prev_index as int] == paths@[prev_index as int]@);
        self.selected_tree_path = Some(paths[prev_index].clone());
    }

    /// Collapses the selected directory, or expands it if collapsed.
    pub fn toggle_collapse_selected(&mut self)
        ensures
            string_set(final(self).collapsed_paths@) == match old(self).selected_tree_path {
                Some(p) => flip_member(string_set(old(self).collapsed_paths@), p@),
                None => string_set(old(self).collapsed_paths@),
            },
            old(self).selected_tree_path is None ==> final(self).collapsed_paths == old(self).collapsed_paths,
            *final(self) == (AppState { collapsed_paths: final(self).collapsed_paths, ..*old(self) }),
    {
        match &self.selected_tree_path {
            Some(path) => {
                if strings_contain(&self.collapsed_paths, path.as_str()) {
                    self.collapsed_paths = strings_without(&self.collapsed_paths, path);
                } else {
                    let ghost before = self.collapsed_paths@;
                    self.collapsed_paths.push(path.clone());
                    proof {
                        lemma_string_set_push(before, self.collapsed_paths@.last());
                        assert(self.collapsed_paths@ =~= before.push(self.collapsed_paths@.last()));
                    }
                }
            },
            None => {},
        }
    }

    /// Whether `path` is collapsed.
    pub fn is_collapsed(&self, path: &str) -> (r: bool)
        ensures
            r == string_set(self.collapsed_paths@).contains(path@),
    {
        strings_contain(&self.collapsed_paths, path)
    }

    /// Collapses, in `tree`, every path collapsed here.
    pub fn apply_collapsed_to_tree(&self, tree: &mut FileTree)
        requires
            old(tree).wf(),
        ensures
            final(tree).wf(),
            final(tree).root_view() == old(tree).root_view(),
            final(tree).nodes() == collapse_each(old(tree).nodes(), strings_view(self.collapsed_paths@)),
    {
        let ghost paths = strings_view(self.collapsed_paths@);
        let mut i: usize = 0;
        proof {
            assert(paths.take(0) =~= Seq::<Seq<char>>::empty());
        }
        while i < self.collapsed_paths.len()
            invariant
                paths == strings_view(self.collapsed_paths@),
                i <= paths.len(),
                tree.wf(),
                tree.root_view() == old(tree).root_view(),
                tree.nodes() == collapse_each(old(tree).nodes(), paths.take(i as int)),
            decreases paths.len() - i,
        {
            proof {
                assert(paths.take(i + 1).drop_last() =~= paths.take(i as int));
                assert(paths.take(i + 1).last() == self.collapsed_paths@[i as int]@);
            }
            tree.collapse(self.collapsed_paths[i].as_str());
            i = i + 1;
        }
        proof {
            assert(paths.take(paths.len() as int) =~= paths);
        }
    }

    /// Collapses every directory of `tree` and records them all as collapsed.
    pub fn collapse_all(&mut self, tree: &mut FileTree)
        requires
            old(tree).wf(),
        ensures
            final(tree).wf(),
            final(tree).root_view() == old(tree).root_view(),
            final(tree).nodes() == transform_map(old(tree).nodes(), NodeOp::CollapseDirs),
            strings_view(final(self).collapsed_paths@) == directory_list(*final(tree)),
            *final(self) == (AppState { collapsed_paths: final(self).collapsed_paths, ..*old(self) }),
    {
        tree.collapse_all();
        self.collapsed_paths = tree.directory_paths();
    }

    /// Expands every directory of `tree` and forgets the collapsed ones.
    pub fn expand_all(&mut self, tree: &mut FileTree)
        requires
            old(tree).wf(),
        ensures
            final(tree).wf(),
            final(tree).root_view() == old(tree).root_view(),
            final(tree).nodes() == transform_map(old(tree).nodes(), NodeOp::Expand),
            final(self).collapsed_paths@.len() == 0,
            *final(self) == (AppState { collapsed_paths: final(self).collapsed_paths, ..*old(self) }),
    {
        tree.expand_all();
        self.collapsed_paths = Vec::new();
    }

    /// Scrolls the tree down a page, no further than the last page.
    pub fn page_down(&mut self, tree: &FileTree, page_height: usize)
        requires
            tree.wf(),
            old(self).tree_scroll_offset + page_height <= usize::MAX,
        ensures
            ({
                let n = listed_paths(*old(self), *tree).len();
                let max_offset = if n >= page_height { n - page_height } else { 0 };
                let wanted = old(self).tree_scroll_offset + page_height;
                final(self).tree_scroll_offset == if wanted <= max_offset { wanted } else { max_offset }
            }),
            *final(self) == (AppState { tree_scroll_offset: final(self).tree_scroll_offset, ..*old(self) }),
    {
        let visible = self.filtered_visible_paths(tree);
        let n = visible.len();
        let max_offset = if n >= page_height {
            n - page_height
        } else {
            0
        };
        let wanted = self.tree_scroll_offset + page_height;
        self.tree_scroll_offset = if wanted <= max_offset {
            wanted
        } else {
            max_offset
        };
    }

    /// Scrolls the tree up a page, no further than the top.
    pub fn page_up(&mut self, page_height: usize)
        ensures
            final(self).tree_scroll_offset == if old(self).tree_scroll_offset >= page_height {
                old(self).tree_scroll_offset - page_height
            } else {
                0int
            },
            *final(self) == (AppState { tree_scroll_offset: final(self).tree_scroll_offset, ..*old(self) }),
    {
        self.tree_scroll_offset = if self.tree_scroll_offset >= page_height {
            self.tree_scroll_offset - page_height
        } else {
            0
        };
    }

    /// Selects the next of `field_count` detail fields, staying on the last.
    pub fn select_next_detail_field(&mut self, field_count: usize)
        ensures
            final(self).selected_detail_field == if old(self).selected_detail_field + 1 < field_count {
                old(self).selected_detail_field + 1
            } else {
                old(self).selected_detail_field as int
            },
            *final(self) == (AppState { selected_detail_field: final(self).selected_detail_field, ..*old(self) }),
    {
        if self.selected_detail_field < field_count && self.selected_detail_field + 1 < field_count {
            self.selected_detail_field = self.selected_detail_field + 1;
        }
    }

    /// Selects the previous detail field, staying on the first.
    pub fn select_prev_detail_field(&mut self, field_count: usize)
        ensures
            final(self).selected_detail_field == if old(self).selected_detail_field > 0 {
                old(self).selected_detail_field - 1
            } else {
                0int
            },
            *final(self) == (AppState { selected_detail_field: final(self).selected_detail_field, ..*old(self) }),
    {
        if self.selected_detail_field > 0 {
            self.selected_detail_field = self.selected_detail_field - 1;
        }
    }

    /// Opens the dialog showing the full value of the detail field `label`.
    pub fn open_detail_field_modal(&mut self, label: &str)
        ensures
            final(self).modal@ == (ModalView::DetailField { label: label@ }),
            *final(self) == (AppState { modal: final(self).modal, ..*old(self) }),
    {
        self.modal = ModalState::DetailField { label: label.to_owned() };
    }

    /// The label of the detail field whose dialog is open, if one is.
    pub fn detail_field_label(&self) -> (r: Option<&str>)
        ensures
            match self.modal@ {
                ModalView::DetailField { label } => r matches Some(s) && s@ == label,
                _ => r is None,
            },
    {
        match &self.modal {
            ModalState::DetailField { label } => Some(label.as_str()),
            _ => None,
        }
    }
}

/// Why the selected node cannot be extracted.
#[derive(Debug)]
pub enum ExtractError {
    /// No tree node is selected.
    NoSelection,
    /// The selected path is not in the tree.
    NodeNotFound,
    /// The selected node is a hard link.
    Hardlink { path: String },
    /// The selected node is neither a regular file nor a symbolic link.
    NotFileOrSymlink { path: String, kind: TarEntryType },
    /// The extract dialog was opened on a node that is neither a regular file
    /// nor a symbolic link.
    NotExtractable { path: String },
    /// The destination typed needs a home directory and there is none.
    InvalidDestination,
}

/// The lower-case name of an entry type.
pub open spec fn kind_name(k: TarEntryType) -> Seq<char> {
    match k {
        TarEntryType::Regular => "regular"@,
        TarEntryType::Directory => "directory"@,
        TarEntryType::Symlink => "symlink"@,
        TarEntryType::Hardlink => "hardlink"@,
        TarEntryType::Other => "other"@,
    }
}

/// The message of each extraction error.
pub open spec fn extract_message(e: ExtractError) -> Seq<char> {
    match e {
        ExtractError::NoSelection => "no file selected"@,
        ExtractError::NodeNotFound => "selected node not found"@,
        ExtractError::Hardlink { path } => "cannot extract "@ + path@
            + ": hardlinks are not supported yet"@,
        ExtractError::NotFileOrSymlink { path, kind } => "cannot extract "@ + path@
            + ": selected node is a "@ + kind_name(kind) + " (not a file or symlink)"@,
        ExtractError::NotExtractable { path } => "cannot extract "@ + path@
            + ": selected node is not a file or symlink"@,
        ExtractError::InvalidDestination => "invalid destination path"@,
    }
}

fn kind_name_chars(k: TarEntryType) -> (r: Vec<char>)
    ensures
        r@ == kind_name(k),
{
    match k {
        TarEntryType::Regular => str_to_chars("regular"),
        TarEntryType::Directory => str_to_chars("directory"),
        TarEntryType::Symlink => str_to_chars("symlink"),
        TarEntryType::Hardlink => str_to_chars("hardlink"),
        TarEntryType::Other => str_to_chars("other"),
    }
}

impl ExtractError {
    /// The error's message.
    pub fn message(&self) -> (r: String)
        ensures
            r@ == extract_message(*self),
    {
        let v: Vec<char> = match self {
            ExtractError::NoSelection => str_to_chars("no file selected"),
            ExtractError::NodeNotFound => str_to_chars("selected node not found"),
            ExtractError::Hardlink { path } => {
                let mut v = str_to_chars("cannot extract ");
                append_chars(&mut v, &string_chars(path));
                append_chars(&mut v, &str_to_chars(": hardlinks are not supported yet"));
                v
            },
            ExtractError::NotFileOrSymlink { path, kind } => {
                let mut v = str_to_chars("cannot extract ");
                append_chars(&mut v, &string_chars(path));
                append_chars(&mut v, &str_to_chars(": selected node is a "));
                append_chars(&mut v, &kind_name_chars(*kind));
                append_chars(&mut v, &str_to_chars(" (not a file or symlink)"));
                v
            },
            ExtractError::NotExtractable { path } => {
                let mut v = str_to_chars("cannot extract ");
                append_chars(&mut v, &string_chars(path));
                append_chars(&mut v, &str_to_chars(": selected node is not a file or symlink"));
                v
            },
            ExtractError::InvalidDestination => str_to_chars("invalid destination path"),
        };
        vec_to_string(&v)
    }
}

/// What an extraction writes.
#[derive(Debug)]
pub enum ExtractContent {
    /// A regular file with these bytes.
    File(Vec<u8>),
    /// A symbolic link to this target.
    Symlink(String),
}

/// An extraction to carry out: the node at `image_path` to `destination`.
#[derive(Debug)]
pub struct ExtractJob {
    pub image_path: String,
    pub destination: String,
    pub content: ExtractContent,
}

/// What extracting the selection of `st` from `tree` to `dest` comes to:
/// the job, or the error and nothing written.
pub open spec fn extract_outcome(st: AppState, tree: FileTree, dest: Seq<char>) -> Result<
    (Seq<char>, Seq<char>, TarEntryType, Seq<u8>, Seq<char>),
    ExtractError,
> {
    extract_outcome_in(st, tree.root_view(), tree.nodes(), dest)
}

/// What extracting the selection of `st` to `dest` comes to, from the tree
/// with root `root` and entries `m`.
pub open spec fn extract_outcome_in(st: AppState, root: NodeView, m: Map<PathKey, NodeView>, dest: Seq<char>) -> Result<
    (Seq<char>, Seq<char>, TarEntryType, Seq<u8>, Seq<char>),
    ExtractError,
> {
    match st.selected_tree_path {
        None => Err(ExtractError::NoSelection),
        Some(p) => match lookup(root, m, p@) {
            None => Err(ExtractError::NodeNotFound),
            Some(n) => match n.info.entry_type {
                TarEntryType::Regular => Ok((p@, dest, TarEntryType::Regular, n.info.content, n.info.linkname)),
                TarEntryType::Symlink => Ok((p@, dest, TarEntryType::Symlink, n.info.content, n.info.linkname)),
                TarEntryType::Hardlink => Err(ExtractError::Hardlink { path: p }),
                k => Err(ExtractError::NotFileOrSymlink { path: p, kind: k }),
            },
        },
    }
}

/// `job` carries out the extraction described by `o`.
pub open spec fn job_matches(
    job: ExtractJob,
    o: (Seq<char>, Seq<char>, TarEntryType, Seq<u8>, Seq<char>),
) -> bool {
    &&& job.image_path@ == o.0
    &&& job.destination@ == o.1
    &&& match job.content {
        ExtractContent::File(bytes) => o.2 == TarEntryType::Regular && bytes@ == o.3,
        ExtractContent::Symlink(target) => o.2 == TarEntryType::Symlink && target@ == o.4,
    }
}

/// `base` joined with `rest` as a path join writes it: an absolute `rest`
/// replaces `base`.
pub open spec fn join_paths(base: Seq<char>, rest: Seq<char>) -> Seq<char> {
    if rest.len() > 0 && rest[0] == '/' {
        rest
    } else if base.len() == 0 {
        rest
    } else if base.last() == '/' {
        base + rest
    } else {
        base + seq!['/'] + rest
    }
}

/// Where an extraction writes: inside `dest` (keeping the image path) when
/// `dest` ends with a separator or is a directory, else `dest` itself.
pub open spec fn extract_target(dest: Seq<char>, image_path: Seq<char>, dest_is_dir: bool) -> Seq<char> {
    if has_suffix(dest, seq!['/']) || has_suffix(dest, seq!['\\']) || dest_is_dir {
        join_paths(dest, image_path)
    } else {
        dest
    }
}

/// The path an extraction writes to; `dest_is_dir` tells whether `dest`
/// names an existing directory.
pub fn resolve_extract_destination(dest: &str, image_path: &str, dest_is_dir: bool) -> (r: String)
    ensures
        r@ == extract_target(dest@, image_path@, dest_is_dir),
{
    let d = str_to_chars(dest);
    let p = str_to_chars(image_path);
    let n = d.len();
    let ends_sep = n > 0 && (d[n - 1] == '/' || d[n - 1] == '\\');
    proof {
        if n > 0 {
            assert(d@.skip(n - 1) =~= seq![d@[n - 1]]);
            assert(seq![d@[n - 1]][0] == d@[n - 1]);
            assert(seq!['/'][0] == '/');
            assert(seq!['\\'][0] == '\\');
            if d@[n - 1] == '/' {
                assert(seq![d@[n - 1]] =~= seq!['/']);
            }
            if d@[n - 1] == '\\' {
                assert(seq![d@[n - 1]] =~= seq!['\\']);
            }
        }
        assert(ends_sep == (has_suffix(d@, seq!['/']) || has_suffix(d@, seq!['\\'])));
    }
    if ends_sep || dest_is_dir {
        if p.len() > 0 && p[0] == '/' {
            return image_path.to_owned();
        }
        let mut out = d;
        if n > 0 && out[n - 1] != '/' {
            out.push('/');
        }
        append_chars(&mut out, &p);
        proof {
            if n == 0 {
                assert(out@ =~= p@);
            } else if d@.last() == '/' {
                assert(out@ =~= d@ + p@);
            } else {
                assert(out@ =~= d@ + seq!['/'] + p@);
            }
        }
        vec_to_string(&out)
    } else {
        dest.to_owned()
    }
}

/// The default destination of the extract dialog.
pub open spec fn default_destination(cfg: Option<Seq<char>>, home: Option<Seq<char>>, cwd: Option<Seq<char>>) -> Seq<char> {
    let configured = match cfg {
        Some(d) => tilde_expansion(d, home),
        None => None,
    };
    match configured {
        Some(p) => p,
        None => match cwd {
            Some(c) => c,
            None => "."@,
        },
    }
}

impl AppState {
    /// The extraction of the selected node of `tree` to `dest`.
    pub fn prepare_extract(&self, tree: &FileTree, dest: &str) -> (r: Result<ExtractJob, ExtractError>)
        requires
            tree.wf(),
        ensures
            match extract_outcome(*self, *tree, dest@) {
                Ok(o) => r matches Ok(job) && job_matches(job, o),
                Err(e) => r matches Err(e2) && e2 == e,
            },
    {
        let path = match &self.selected_tree_path {
            Some(p) => p,
            None => return Err(ExtractError::NoSelection),
        };
        let node = match tree.get_node(path.as_str()) {
            Some(n) => n,
            None => return Err(ExtractError::NodeNotFound),
        };
        match node.info.entry_type {
            TarEntryType::Regular => {
                let bytes = node.info.clone().content;
                Ok(ExtractJob { image_path: path.clone(), destination: dest.to_owned(), content: ExtractContent::File(bytes) })
            },
            TarEntryType::Symlink => Ok(
                ExtractJob {
                    image_path: path.clone(),
                    destination: dest.to_owned(),
                    content: ExtractContent::Symlink(node.info.linkname.clone()),
                },
            ),
            TarEntryType::Hardlink => Err(ExtractError::Hardlink { path: path.clone() }),
            k => Err(ExtractError::NotFileOrSymlink { path: path.clone(), kind: k }),
        }
    }

    /// Records a finished extraction to `target` in the status line.
    pub fn record_extraction(&mut self, target: &str, symlink: bool)
        ensures
            final(self).status_message matches Some(m) && m@ == (if symlink {
                "Extracted symlink "@
            } else {
                "Extracted "@
            }) + target@,
            *final(self) == (AppState { status_message: final(self).status_message, ..*old(self) }),
    {
        let mut v = if symlink {
            str_to_chars("Extracted symlink ")
        } else {
            str_to_chars("Extracted ")
        };
        append_chars(&mut v, &str_to_chars(target));
        self.status_message = Some(vec_to_string(&v));
    }

    /// Reports how carrying out an extraction went: on success, with the
    /// path written and whether it is a symbolic link, the dialog closes and
    /// the status line says what was extracted; on failure, with the
    /// reason, the dialog stays as it is and the status line says why.
    pub fn finish_extract(&mut self, outcome: Result<(String, bool), String>)
        ensures
            match outcome {
                Ok((target, symlink)) => {
                    &&& final(self).modal@ == ModalView::Closed
                    &&& final(self).status_message matches Some(m) && m@ == (if symlink {
                        "Extracted symlink "@
                    } else {
                        "Extracted "@
                    }) + target@
                },
                Err(reason) => {
                    &&& final(self).modal == old(self).modal
                    &&& final(self).status_message matches Some(m) && m@ == "Extract failed: "@ + reason@
                },
            },
            *final(self) == (AppState {
                modal: final(self).modal,
                status_message: final(self).status_message,
                ..*old(self)
            }),
    {
        match outcome {
            Ok((target, symlink)) => {
                self.record_extraction(target.as_str(), symlink);
                self.modal = ModalState::Closed;
            },
            Err(reason) => {
                let mut v = str_to_chars("Extract failed: ");
                append_chars(&mut v, &string_chars(&reason));
                self.status_message = Some(vec_to_string(&v));
            },
        }
    }

    /// Opens the extract dialog for the selected node, which must be a
    /// regular file or a symbolic link. The destination offered is the
    /// configured default directory (`~` expanded against `home`), else the
    /// working directory `cwd`, else `.`.
    pub fn open_extract_modal(&mut self, tree: &FileTree, home: Option<&str>, cwd: Option<&str>) -> (r: Result<(), ExtractError>)
        requires
            tree.wf(),
        ensures
            match old(self).selected_tree_path {
                None => r matches Err(e) && e is NoSelection && final(self).modal == old(self).modal,
                Some(p) => match lookup(tree.root_view(), tree.nodes(), p@) {
                    None => r matches Err(e) && e is NodeNotFound && final(self).modal == old(self).modal,
                    Some(n) => if n.info.entry_type == TarEntryType::Regular || n.info.entry_type
                        == TarEntryType::Symlink {
                        &&& r is Ok
                        &&& final(self).modal@ == (ModalView::ExtractTo {
                            destination: default_destination(
                                opt_view(old(self).config.extract.default_directory),
                                str_opt(home),
                                str_opt(cwd),
                            ),
                            original_path: p@,
                        })
                    } else {
                        r matches Err(e) && e == (ExtractError::NotExtractable { path: p })
                            && final(self).modal == old(self).modal
                    },
                },
            },
            *final(self) == (AppState { modal: final(self).modal, ..*old(self) }),
    {
        let path = match &self.selected_tree_path {
            Some(p) => p.clone(),
            None => return Err(ExtractError::NoSelection),
        };
        let node = match tree.get_node(path.as_str()) {
            Some(n) => n,
            None => return Err(ExtractError::NodeNotFound),
        };
        if !(node.info.entry_type == TarEntryType::Regular || node.info.entry_type == TarEntryType::Symlink) {
            return Err(ExtractError::NotExtractable { path });
        }
        let default: String = match self.config.extract_default_directory(home) {
            Some(d) => d,
            None => match cwd {
                Some(c) => c.to_owned(),
                None => ".".to_owned(),
            },
        };
        self.modal = ModalState::ExtractTo { destination: default, original_path: path };
        Ok(())
    }

    /// Confirms the extract dialog: hands back the extraction to the
    /// destination typed (`~` expanded against `home`), for the caller to
    /// carry out and report with [`AppState::finish_extract`]; the dialog
    /// stays open until then. Where the destination or the selection cannot
    /// be extracted, the error comes back and the dialog stays open. Any
    /// other dialog is just closed.
    pub fn confirm_extract_modal(&mut self, tree: &FileTree, home: Option<&str>) -> (r: Result<Option<ExtractJob>, ExtractError>)
        requires
            tree.wf(),
        ensures
            match old(self).modal@ {
                ModalView::ExtractTo { destination, .. } => {
                    match tilde_expansion(destination, str_opt(home)) {
                        None => r matches Err(e) && e is InvalidDestination && final(self).modal
                            == old(self).modal,
                        Some(dest) => match extract_outcome(*old(self), *tree, dest) {
                            Ok(o) => r matches Ok(Some(job)) && job_matches(job, o) && final(self).modal
                                == old(self).modal,
                            Err(e) => r matches Err(e2) && e2 == e && final(self).modal == old(self).modal,
                        },
                    }
                },
                _ => r matches Ok(None) && final(self).modal@ == ModalView::Closed,
            },
            *final(self) == (AppState { modal: final(self).modal, ..*old(self) }),
    {
        let dest = match &self.modal {
            ModalState::ExtractTo { destination, .. } => match expand_tilde(destination.as_str(), home) {
                Some(d) => d,
                None => return Err(ExtractError::InvalidDestination),
            },
            _ => {
                self.modal = ModalState::Closed;
                return Ok(None);
            },
        };
        match self.prepare_extract(tree, dest.as_str()) {
            Ok(job) => Ok(Some(job)),
            Err(e) => Err(e),
        }
    }
}


impl AppState {
    /// The state after moving to the layer above, when there is one: the tree
    /// selection is cleared and the tree scrolls to the top.
    pub open spec fn layer_above(self) -> AppState {
        if self.selected_layer + 1 < self.image.layers@.len() {
            AppState {
                selected_layer: (self.selected_layer + 1) as usize,
                selected_tree_path: None,
                tree_scroll_offset: 0,
                ..self
            }
        } else {
            self
        }
    }

    /// The state after moving to the layer below, when there is one.
    pub open spec fn layer_below(self) -> AppState {
        if self.selected_layer > 0 {
            AppState {
                selected_layer: (self.selected_layer - 1) as usize,
                selected_tree_path: None,
                tree_scroll_offset: 0,
                ..self
            }
        } else {
            self
        }
    }

    /// The state with the other sort mode.
    pub open spec fn sort_toggled(self) -> AppState {
        AppState {
            sort_mode: match self.sort_mode {
                SortMode::Name => SortMode::Size,
                SortMode::Size => SortMode::Name,
            },
            ..self
        }
    }

    /// The state with attributes shown or hidden the other way.
    pub open spec fn attributes_toggled(self) -> AppState {
        AppState { show_attributes: !self.show_attributes, ..self }
    }

    /// The state with tree wrapping switched the other way.
    pub open spec fn wrap_toggled(self) -> AppState {
        AppState { wrap_tree: !self.wrap_tree, ..self }
    }
}

/// `after` holds `d` exactly when `before` does not, and agrees with
/// `before` on everything else.
pub open spec fn toggles_member<T>(before: Seq<T>, after: Seq<T>, d: T) -> bool {
    &&& after.contains(d) == !before.contains(d)
    &&& forall|e: T| e != d ==> (#[trigger] after.contains(e) == before.contains(e))
}

/// `s` with `p` removed if it is there, added if it is not.
pub open spec fn flip_member(s: Set<Seq<char>>, p: Seq<char>) -> Set<Seq<char>> {
    if s.contains(p) {
        s.remove(p)
    } else {
        s.insert(p)
    }
}

/// Moving the focus forward and then back (or back and then forward)
/// returns to the same pane, and four steps forward go all the way round.
pub proof fn law_focus_cycle(p: FocusPane)
    ensures
        p.next_spec().prev_spec() == p,
        p.prev_spec().next_spec() == p,
        p.next_spec().next_spec().next_spec().next_spec() == p,
{
}

/// Toggling the sort mode, the attribute column or tree wrapping twice
/// gives back the state as it was.
pub proof fn law_toggles_involutive(s: AppState)
    ensures
        s.sort_toggled().sort_toggled() == s,
        s.attributes_toggled().attributes_toggled() == s,
        s.wrap_toggled().wrap_toggled() == s,
{
}

/// Moving to the layer above and back selects the same layer again; the
/// selected layer stays inside the image whichever way it moves.
pub proof fn law_layer_selection(s: AppState)
    ensures
        s.selected_layer + 1 < s.image.layers@.len() ==> s.layer_above().layer_below() == (AppState {
            selected_tree_path: None,
            tree_scroll_offset: 0,
            ..s
        }),
        0 < s.selected_layer < s.image.layers@.len() ==> s.layer_below().layer_above().selected_layer
            == s.selected_layer,
        s.selected_layer < s.image.layers@.len() ==> s.layer_above().selected_layer < s.image.layers@.len(),
        s.selected_layer < s.image.layers@.len() ==> s.layer_below().selected_layer < s.image.layers@.len(),
{
    assert(s.image.layers.len() == s.image.layers@.len());
    if s.selected_layer + 1 < s.image.layers@.len() {
        let up = s.layer_above();
        assert(up.selected_layer == s.selected_layer + 1);
        assert(up.image == s.image);
        assert(up.layer_below().selected_layer == s.selected_layer);
        assert(up.layer_below() == (AppState { selected_tree_path: None, tree_scroll_offset: 0, ..s }));
    }
}

/// Hiding a diff type and toggling it again shows exactly what was shown
/// before.
pub proof fn law_toggle_diff_type_twice(a: Seq<DiffType>, b: Seq<DiffType>, c: Seq<DiffType>, d: DiffType)
    requires
        toggles_member(a, b, d),
        toggles_member(b, c, d),
    ensures
        forall|e: DiffType| #[trigger] c.contains(e) == a.contains(e),
{
    assert forall|e: DiffType| #[trigger] c.contains(e) == a.contains(e) by {
        if e != d {
            assert(c.contains(e) == b.contains(e));
            assert(b.contains(e) == a.contains(e));
        }
    }
}

/// Collapsing a directory and toggling it again leaves the set of collapsed
/// paths as it was.
pub proof fn law_collapse_toggle_twice(s: Set<Seq<char>>, p: Seq<char>)
    ensures
        flip_member(flip_member(s, p), p) == s,
{
    if s.contains(p) {
        assert(s.remove(p).insert(p) =~= s);
    } else {
        assert(s.insert(p).remove(p) =~= s);
    }
}

/// Typing a character into the filter and erasing it gives back the filter
/// text.
pub proof fn law_filter_type_then_erase(text: Seq<char>, c: char)
    ensures
        drop_last_char(text.push(c)) == text,
{
    assert(text.push(c).drop_last() =~= text);
}

/// In a list without repeats, a listed path is found where it stands.
pub proof fn lemma_first_index_distinct(paths: Seq<Seq<char>>, i: int)
    requires
        paths.no_duplicates(),
        0 <= i < paths.len(),
    ensures
        first_index(paths, paths[i]) == i,
    decreases paths.len(),
{
    if i > 0 {
        let rest = paths.drop_first();
        assert(paths[0] != paths[i]);
        assert(rest[i - 1] == paths[i]);
        assert forall|a: int, b: int| 0 <= a < rest.len() && 0 <= b < rest.len() && a != b implies rest[a]
            != rest[b] by {
            assert(rest[a] == paths[a + 1] && rest[b] == paths[b + 1]);
        }
        lemma_first_index_distinct(rest, i - 1);
    }
}

/// Moving the tree selection down and then up returns to the path selected
/// before, whenever another path follows it in the listing; and moving up
/// alone selects the path listed just above (the first stays first).
pub proof fn law_tree_next_then_prev(st: AppState, tree: FileTree, i: int)
    requires
        tree.wf(),
        0 <= i < listed_paths(st, tree).len(),
    ensures
        ({
            let paths = listed_paths(st, tree);
            &&& i + 1 < paths.len() ==> prev_selection(paths, next_selection(paths, Some(paths[i]))) == Some(
                paths[i],
            )
            &&& prev_selection(paths, Some(paths[i])) == Some(paths[if i == 0 { 0 } else { i - 1 }])
        }),
{
    let paths = listed_paths(st, tree);
    lemma_shown_paths_distinct(tree, st.hidden_diff_types@, active_pattern(st));
    lemma_first_index_distinct(paths, i);
    if i + 1 < paths.len() {
        lemma_first_index_distinct(paths, i + 1);
    }
}

} // verus!
