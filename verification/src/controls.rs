//! What each key press does to the explorer's state, pane by pane.
use vstd::prelude::*;
use crate::comparer::{
    Comparer, RangeKey, aggregated_key, key_ok, merged_map, natural_key, range_root, layers_match, lemma_layers_match_merged,
};
use crate::config::{KeyCode, KeyInput, bindings_view, key_triggers};
use crate::filetree::{
    DiffType, FileTree, NodeOp, NodeView, TarEntryType, canonical_keys, lookup, shown_paths,
    strings_view, transform_map,
};
use crate::image::{Layer, layers_wf};
use crate::paths::{PathKey, join_path};
use crate::state::{
    AppState, CompareMode, FocusPane, ModalView, active_pattern, collapse_each,
    default_destination, directory_list, extract_message, listed_paths, next_selection, opt_view,
    prev_selection, string_set, drop_last_char, ExtractError, ExtractJob, extract_outcome_in,
    job_matches,
};
use crate::text::{append_chars, str_to_chars, string_chars, vec_to_string};
use crate::utils::{str_opt, tilde_expansion};
use crate::widgets::{LayerDetailsWidget, state_fields, field_value};

verus! {

/// What the explorer does next.
#[derive(Debug)]
pub enum AppAction {
    /// Exit the application.
    Quit,
    /// Load a different image and restart.
    OpenImage(String),
}

/// What a key press leaves the caller to do.
#[derive(Debug)]
pub enum KeyOutcome {
    /// Nothing: draw and wait for the next key.
    Continue,
    /// Quit or load another image.
    Action(AppAction),
    /// Copy this text to the clipboard.
    Copy(String),
    /// Carry out this extraction and report the outcome with
    /// `AppState::finish_extract`; the extract dialog stays open until then.
    Extract(ExtractJob),
}

/// `key` triggers `action` under the state's key bindings.
pub open spec fn pressed(st: AppState, action: Seq<char>, key: KeyInput) -> bool {
    key_triggers(bindings_view(st.config.keybindings@), action, key)
}

/// The layer the file tree shows: the selected one, or the top one when the
/// selection is past the end.
pub open spec fn shown_index(st: AppState, n: int) -> int {
    if st.selected_layer < n {
        st.selected_layer as int
    } else {
        n - 1
    }
}

/// The comparison the file tree shows.
pub open spec fn shown_key(st: AppState, n: int) -> RangeKey {
    match st.compare_mode {
        CompareMode::Natural => natural_key(shown_index(st, n)),
        CompareMode::Aggregated => aggregated_key(shown_index(st, n)),
    }
}

/// The entries of the file tree shown, with the collapsed paths applied.
pub open spec fn shown_map(st: AppState, layers: Seq<Layer>) -> Map<PathKey, NodeView> {
    collapse_each(
        merged_map(layers, shown_key(st, layers.len() as int)),
        strings_view(st.collapsed_paths@),
    )
}

/// The root of the file tree shown.
pub open spec fn shown_root(st: AppState, layers: Seq<Layer>) -> NodeView {
    let k = shown_key(st, layers.len() as int);
    range_root(layers, k.0 as int, k.1 as int)
}

/// The paths listed for the entries `m` under the state's filters.
pub open spec fn listed_in(st: AppState, m: Map<PathKey, NodeView>) -> Seq<Seq<char>> {
    shown_paths(m, canonical_keys(m), st.hidden_diff_types@, active_pattern(st))
}

/// The joined paths of the directories among the entries `m`, in tree order.
pub open spec fn dirs_in(m: Map<PathKey, NodeView>) -> Seq<Seq<char>> {
    canonical_keys(m).filter_map(
        |q: PathKey|
            if m[q].info.entry_type == TarEntryType::Directory {
                Some(join_path(q))
            } else {
                None
            },
    )
}

/// The collapsed paths after toggling the selected one.
pub open spec fn toggled_collapse(st: AppState) -> Set<Seq<char>> {
    match st.selected_tree_path {
        Some(p) => if string_set(st.collapsed_paths@).contains(p@) {
            string_set(st.collapsed_paths@).remove(p@)
        } else {
            string_set(st.collapsed_paths@).insert(p@)
        },
        None => string_set(st.collapsed_paths@),
    }
}

/// The selected layer after moving down the layer list.
pub open spec fn next_layer(st: AppState) -> int {
    if st.selected_layer + 1 < st.image.layers@.len() {
        st.selected_layer + 1
    } else {
        st.selected_layer as int
    }
}

/// The selected layer after moving up the layer list.
pub open spec fn prev_layer(st: AppState) -> int {
    if st.selected_layer > 0 {
        st.selected_layer - 1
    } else {
        0
    }
}

/// Collapse-all as a toggle: collapse every directory of the shown tree
/// when nothing is collapsed, else expand everything.
pub open spec fn collapse_all_step(a: AppState, b: AppState, layers: Seq<Layer>) -> bool {
    if a.collapsed_paths@.len() == 0 {
        strings_view(b.collapsed_paths@) == dirs_in(transform_map(shown_map(a, layers), NodeOp::CollapseDirs))
    } else {
        b.collapsed_paths@.len() == 0
    }
}

/// Which action of the layer list a key triggers (8: none).
pub open spec fn list_branch(st: AppState, key: KeyInput) -> int {
    if pressed(st, "next_layer"@, key) {
        0
    } else if pressed(st, "prev_layer"@, key) {
        1
    } else if pressed(st, "page_up"@, key) {
        2
    } else if pressed(st, "page_down"@, key) {
        3
    } else if pressed(st, "collapse"@, key) {
        4
    } else if pressed(st, "compare_aggregated"@, key) {
        5
    } else if pressed(st, "compare_natural"@, key) {
        6
    } else if pressed(st, "collapse_all"@, key) {
        7
    } else {
        8
    }
}

/// A key in the layer list.
pub open spec fn list_step(a: AppState, b: AppState, key: KeyInput, page: int, layers: Seq<Layer>) -> bool {
    let br = list_branch(a, key);
    let n = a.image.layers@.len() as int;
    &&& b.image == a.image
    &&& b.selected_layer == if br == 0 {
        next_layer(a)
    } else if br == 1 {
        prev_layer(a)
    } else if br == 2 {
        if a.selected_layer >= page {
            a.selected_layer - page
        } else {
            0
        }
    } else if br == 3 {
        let last = if n > 0 { n - 1 } else { 0 };
        if a.selected_layer + page <= last {
            a.selected_layer + page
        } else {
            last
        }
    } else {
        a.selected_layer as int
    }
    &&& (br == 0 || br == 1) && b.selected_layer != a.selected_layer ==> b.selected_tree_path is None
    &&& br == 4 ==> string_set(b.collapsed_paths@) == toggled_collapse(a)
    &&& br == 5 ==> b.compare_mode == CompareMode::Aggregated
    &&& br == 6 ==> b.compare_mode == CompareMode::Natural
    &&& br != 5 && br != 6 ==> b.compare_mode == a.compare_mode
    &&& br == 7 ==> collapse_all_step(a, b, layers)
    &&& br != 4 && br != 7 ==> b.collapsed_paths == a.collapsed_paths
}

/// Which action of the file tree a key triggers (13: none).
pub open spec fn tree_branch(st: AppState, key: KeyInput) -> int {
    if pressed(st, "next_tree_node"@, key) {
        0
    } else if pressed(st, "prev_tree_node"@, key) {
        1
    } else if pressed(st, "collapse"@, key) {
        2
    } else if pressed(st, "collapse_all"@, key) {
        3
    } else if pressed(st, "page_up"@, key) {
        4
    } else if pressed(st, "page_down"@, key) {
        5
    } else if pressed(st, "extract"@, key) {
        6
    } else if pressed(st, "toggle_diff_added"@, key) {
        7
    } else if pressed(st, "toggle_diff_removed"@, key) {
        8
    } else if pressed(st, "toggle_diff_modified"@, key) {
        9
    } else if pressed(st, "toggle_diff_unmodified"@, key) {
        10
    } else if key.code == KeyCode::Left || key.code == KeyCode::Char('h') {
        11
    } else if key.code == KeyCode::Right || key.code == KeyCode::Char('l') {
        12
    } else {
        13
    }
}

/// The mark a file-tree key shows or hides.
pub open spec fn branch_diff(br: int) -> DiffType {
    if br == 7 {
        DiffType::Added
    } else if br == 8 {
        DiffType::Removed
    } else if br == 9 {
        DiffType::Modified
    } else {
        DiffType::Unmodified
    }
}

/// What opening the extract dialog on the shown tree does.
pub open spec fn extract_open_step(a: AppState, b: AppState, layers: Seq<Layer>, home: Option<Seq<char>>, cwd: Option<Seq<char>>) -> bool {
    let failed = |e: ExtractError|
        b.modal == a.modal && (b.status_message matches Some(m) && m@ == "Extract failed: "@
            + extract_message(e));
    match a.selected_tree_path {
        None => failed(ExtractError::NoSelection),
        Some(p) => match lookup(shown_root(a, layers), shown_map(a, layers), p@) {
            None => failed(ExtractError::NodeNotFound),
            Some(n) => if n.info.entry_type == TarEntryType::Regular || n.info.entry_type
                == TarEntryType::Symlink {
                b.modal@ == (ModalView::ExtractTo {
                    destination: default_destination(
                        opt_view(a.config.extract.default_directory),
                        home,
                        cwd,
                    ),
                    original_path: p@,
                })
            } else {
                failed(ExtractError::NotExtractable { path: p })
            },
        },
    }
}

/// A key in the file tree.
pub open spec fn tree_step(
    a: AppState,
    b: AppState,
    key: KeyInput,
    page: int,
    layers: Seq<Layer>,
    home: Option<Seq<char>>,
    cwd: Option<Seq<char>>,
) -> bool {
    let br = tree_branch(a, key);
    let listed = listed_in(a, shown_map(a, layers));
    &&& b.image == a.image
    &&& b.selected_layer == a.selected_layer
    &&& br == 0 ==> opt_view(b.selected_tree_path) == next_selection(listed, opt_view(a.selected_tree_path))
    &&& br == 1 ==> opt_view(b.selected_tree_path) == prev_selection(listed, opt_view(a.selected_tree_path))
    &&& br != 0 && br != 1 ==> b.selected_tree_path == a.selected_tree_path
    &&& br == 2 ==> string_set(b.collapsed_paths@) == toggled_collapse(a)
    &&& br == 3 ==> collapse_all_step(a, b, layers)
    &&& br == 4 ==> b.tree_scroll_offset == if a.tree_scroll_offset >= page {
        a.tree_scroll_offset - page
    } else {
        0
    }
    &&& br == 5 ==> {
        let max_offset = if listed.len() >= page { listed.len() - page } else { 0 };
        let wanted = a.tree_scroll_offset + page;
        b.tree_scroll_offset == if wanted <= max_offset { wanted } else { max_offset }
    }
    &&& br != 4 && br != 5 ==> b.tree_scroll_offset == a.tree_scroll_offset
    &&& br == 6 ==> extract_open_step(a, b, layers, home, cwd)
    &&& br != 6 ==> b.modal == a.modal && b.status_message == a.status_message
    &&& 7 <= br <= 10 ==> {
        &&& b.hidden_diff_types@.contains(branch_diff(br)) == !a.hidden_diff_types@.contains(branch_diff(br))
        &&& forall|d: DiffType| d != branch_diff(br) ==> b.hidden_diff_types@.contains(d) == a.hidden_diff_types@.contains(d)
    }
    &&& !(7 <= br <= 10) ==> b.hidden_diff_types == a.hidden_diff_types
    &&& br == 11 ==> string_set(b.collapsed_paths@) == match a.selected_tree_path {
        Some(p) => string_set(a.collapsed_paths@).insert(p@),
        None => string_set(a.collapsed_paths@),
    }
    &&& br == 12 ==> string_set(b.collapsed_paths@) == match a.selected_tree_path {
        Some(p) => string_set(a.collapsed_paths@).remove(p@),
        None => string_set(a.collapsed_paths@),
    }
    &&& br != 2 && br != 3 && br != 11 && br != 12 ==> b.collapsed_paths == a.collapsed_paths
}

/// A key in the layer details.
pub open spec fn details_step(a: AppState, b: AppState, key: KeyInput) -> bool {
    let count = state_fields(a).len();
    let sel = a.selected_detail_field;
    &&& b.image == a.image
    &&& b.selected_layer == a.selected_layer
    &&& if pressed(a, "next_layer"@, key) || pressed(a, "next_tree_node"@, key) {
        b.selected_detail_field == (if sel + 1 < count { sel + 1 } else { sel as int })
            && b.modal == a.modal
    } else if pressed(a, "prev_layer"@, key) || pressed(a, "prev_tree_node"@, key) {
        b.selected_detail_field == (if sel > 0 { sel - 1 } else { 0 }) && b.modal == a.modal
    } else if pressed(a, "collapse"@, key) || key.code == KeyCode::Enter {
        b.selected_detail_field == a.selected_detail_field && if sel < count {
            b.modal@ == (ModalView::DetailField { label: state_fields(a)[sel as int].0 })
        } else {
            b.modal == a.modal
        }
    } else {
        b.selected_detail_field == a.selected_detail_field && b.modal == a.modal
    }
}

/// A key while the filter is open.
pub open spec fn filter_step(a: AppState, b: AppState, key: KeyInput) -> bool {
    &&& b.image == a.image
    &&& b.selected_layer == a.selected_layer
    &&& if pressed(a, "filter"@, key) || key.code == KeyCode::Esc {
        b.is_filter_active == !a.is_filter_active && b.filter_text@ == (if a.is_filter_active {
            Seq::empty()
        } else {
            a.filter_text@
        }) && b.selected_tree_path is None && b.tree_scroll_offset == 0
    } else if key.code == KeyCode::Backspace {
        b.filter_text@ == drop_last_char(a.filter_text@) && b.is_filter_active == a.is_filter_active
            && b.tree_scroll_offset == 0
    } else {
        match key.code {
            KeyCode::Char(c) => b.filter_text@ == a.filter_text@.push(c) && b.is_filter_active
                == a.is_filter_active && b.tree_scroll_offset == 0,
            _ => b.filter_text == a.filter_text && b.is_filter_active == a.is_filter_active,
        }
    }
}

/// What Enter in the extract dialog of `a` comes to, with `home` for `~`
/// in the destination typed: the extraction is handed back for the caller
/// to carry out (the dialog stays open until the caller reports the
/// outcome), or the status line says why it cannot go ahead.
pub open spec fn extract_enter_step(
    a: AppState,
    b: AppState,
    destination: Seq<char>,
    out: KeyOutcome,
    home: Option<Seq<char>>,
) -> bool {
    let failed = |e: ExtractError|
        {
            &&& b.modal == a.modal
            &&& out is Continue
            &&& b.status_message matches Some(m) && m@ == "Extract failed: "@ + extract_message(e)
        };
    match tilde_expansion(destination, home) {
        None => failed(ExtractError::InvalidDestination),
        Some(dest) => match extract_outcome_in(
            a,
            shown_root(a, a.image.layers@),
            shown_map(a, a.image.layers@),
            dest,
        ) {
            Ok(o) => {
                &&& b.modal == a.modal
                &&& b.status_message == a.status_message
                &&& out matches KeyOutcome::Extract(job) && job_matches(job, o)
            },
            Err(e) => failed(e),
        },
    }
}

/// A key while a dialog is open.
pub open spec fn modal_step(a: AppState, b: AppState, key: KeyInput, out: KeyOutcome, home: Option<Seq<char>>) -> bool {
    &&& b.image == a.image
    &&& match a.modal@ {
        ModalView::DetailField { label } => {
            &&& if pressed(a, "next_layer"@, key) {
                b.selected_layer == next_layer(a) && b.modal == a.modal
            } else if pressed(a, "prev_layer"@, key) {
                b.selected_layer == prev_layer(a) && b.modal == a.modal
            } else if key.code == KeyCode::Esc || key.code == KeyCode::Enter {
                b.selected_layer == a.selected_layer && b.modal@ == ModalView::Closed
            } else {
                b.selected_layer == a.selected_layer && b.modal == a.modal
            }
            &&& if !pressed(a, "next_layer"@, key) && !pressed(a, "prev_layer"@, key) && !(key.code
                == KeyCode::Esc || key.code == KeyCode::Enter) && key.ctrl && key.code
                == KeyCode::Char('c') {
                out matches KeyOutcome::Copy(v) && v@ == field_value(state_fields(a), label)
            } else {
                out is Continue
            }
        },
        ModalView::Closed => out is Continue && b.modal == a.modal,
        other => {
            &&& b.selected_layer == a.selected_layer
            &&& if key.code == KeyCode::Esc {
                b.modal@ == ModalView::Closed && out is Continue
            } else if key.code == KeyCode::Enter {
                match other {
                    ModalView::OpenImage { url } => {
                        &&& b.modal@ == ModalView::Closed
                        &&& out matches KeyOutcome::Action(AppAction::OpenImage(u)) && u@ == url
                    },
                    ModalView::ExtractTo { destination, .. } => extract_enter_step(a, b, destination, out, home),
                    _ => b.modal@ == ModalView::Closed && out is Continue,
                }
            } else if key.code == KeyCode::Backspace {
                &&& out is Continue
                &&& b.modal@ == match other {
                    ModalView::ExtractTo { destination, original_path } => ModalView::ExtractTo {
                        destination: drop_last_char(destination),
                        original_path,
                    },
                    ModalView::OpenImage { url } => ModalView::OpenImage { url: drop_last_char(url) },
                    o => o,
                }
            } else {
                match key.code {
                    KeyCode::Char(c) => {
                        &&& out is Continue
                        &&& b.modal@ == match other {
                            ModalView::ExtractTo { destination, original_path } => ModalView::ExtractTo {
                                destination: destination.push(c),
                                original_path,
                            },
                            ModalView::OpenImage { url } => ModalView::OpenImage { url: url.push(c) },
                            o => o,
                        }
                    },
                    _ => out is Continue && b.modal == a.modal,
                }
            }
        },
    }
}

/// The layers the comparer was built on are the image's layers.
pub open spec fn comparer_ok(st: AppState, c: Comparer) -> bool {
    c.wf() && layers_match(c.layers_view(), st.image.layers@)
}

/// A comparer over copies of the state's layers.
pub fn comparer_for(state: &AppState) -> (r: Comparer)
    requires
        layers_wf(state.image.layers@),
    ensures
        comparer_ok(*state, r),
{
    Comparer::new(crate::image::copy_layers(&state.image.layers))
}

/// Matching layers show the same tree.
proof fn lemma_shown_same(st: AppState, a: Seq<Layer>, b: Seq<Layer>)
    requires
        layers_match(a, b),
        a.len() > 0,
    ensures
        shown_map(st, a) == shown_map(st, b),
        shown_root(st, a) == shown_root(st, b),
{
    let k = shown_key(st, a.len() as int);
    lemma_layers_match_merged(a, b, k);
}

/// The tree the file-tree pane shows: the selected comparison, with the
/// collapsed paths applied.
pub fn current_tree(state: &AppState, comparer: &mut Comparer) -> (r: FileTree)
    requires
        old(comparer).wf(),
        old(comparer).layers_view().len() > 0,
    ensures
        final(comparer).wf(),
        final(comparer).layers_view() == old(comparer).layers_view(),
        r.wf(),
        r.nodes() == shown_map(*state, old(comparer).layers_view()),
        r.root_view() == shown_root(*state, old(comparer).layers_view()),
{
    let ghost layers = comparer.layers_view();
    let n = comparer.layer_count();
    let idx = if state.selected_layer < n {
        state.selected_layer
    } else {
        n - 1
    };
    let key = match state.compare_mode {
        CompareMode::Natural => {
            let ix = comparer.natural_indexes();
            ix[idx]
        },
        CompareMode::Aggregated => {
            let ix = comparer.aggregated_indexes();
            ix[idx]
        },
    };
    proof {
        assert(key == shown_key(*state, n as int));
        assert(key_ok(n as int, key));
    }
    let (bs, bstop, ts, tstop) = key;
    let mut tree = comparer.get_tree(bs, bstop, ts, tstop).clone_tree();
    state.apply_collapsed_to_tree(&mut tree);
    tree
}

/// The shown tree lists what the state lists for its entries.
proof fn lemma_listed_canonical(st: AppState, t: FileTree)
    requires
        t.wf(),
    ensures
        listed_paths(st, t) == listed_in(st, t.nodes()),
        directory_list(t) == dirs_in(t.nodes()),
{
    t.lemma_ordered_keys_canonical();
}

/// A key while the layer list has the focus.
pub fn handle_layer_list_keys(state: &mut AppState, key: KeyInput, page_size: usize, comparer: &mut Comparer)
    requires
        comparer_ok(*old(state), *old(comparer)),
        list_branch(*old(state), key) == 7 ==> old(state).image.layers@.len() > 0,
        list_branch(*old(state), key) == 3 ==> old(state).selected_layer + page_size <= usize::MAX,
    ensures
        list_step(*old(state), *final(state), key, page_size as int, old(state).image.layers@),
        comparer_ok(*final(state), *final(comparer)),
{
    let ghost a = *state;
    if state.config.key_matches("next_layer", key) {
        state.select_next_layer();
    } else if state.config.key_matches("prev_layer", key) {
        state.select_prev_layer();
    } else if state.config.key_matches("page_up", key) {
        state.selected_layer = if state.selected_layer >= page_size {
            state.selected_layer - page_size
        } else {
            0
        };
    } else if state.config.key_matches("page_down", key) {
        let n = state.layer_count();
        let last = if n > 0 {
            n - 1
        } else {
            0
        };
        let wanted = state.selected_layer + page_size;
        state.selected_layer = if wanted <= last {
            wanted
        } else {
            last
        };
    } else if state.config.key_matches("collapse", key) {
        state.toggle_collapse_selected();
    } else if state.config.key_matches("compare_aggregated", key) {
        state.compare_mode = CompareMode::Aggregated;
    } else if state.config.key_matches("compare_natural", key) {
        state.compare_mode = CompareMode::Natural;
    } else if state.config.key_matches("collapse_all", key) {
        let mut tree = current_tree(state, comparer);
        proof {
            lemma_shown_same(*state, comparer.layers_view(), state.image.layers@);
        }
        if state.collapsed_paths.len() == 0 {
            state.collapse_all(&mut tree);
            proof {
                lemma_listed_canonical(a, tree);
            }
        } else {
            state.expand_all(&mut tree);
        }
    }
}

/// A key while the layer details have the focus.
pub fn handle_layer_details_keys(state: &mut AppState, key: KeyInput)
    ensures
        details_step(*old(state), *final(state), key),
        final(state).config == old(state).config,
{
    let field_count = LayerDetailsWidget::field_count(state);
    if state.config.key_matches("next_layer", key) || state.config.key_matches("next_tree_node", key) {
        state.select_next_detail_field(field_count);
    } else if state.config.key_matches("prev_layer", key) || state.config.key_matches(
        "prev_tree_node",
        key,
    ) {
        state.select_prev_detail_field(field_count);
    } else if state.config.key_matches("collapse", key) || key.code == KeyCode::Enter {
        let fields = LayerDetailsWidget::fields(state);
        if state.selected_detail_field < fields.len() {
            let label = fields[state.selected_detail_field].label;
            proof {
                assert(crate::widgets::fields_view(fields@)[state.selected_detail_field as int].0 == label@);
            }
            state.open_detail_field_modal(label);
        }
    }
}

/// The message shown when an extraction cannot go ahead.
fn extract_failed(e: &ExtractError) -> (r: String)
    ensures
        r@ == "Extract failed: "@ + extract_message(*e),
{
    let mut v = str_to_chars("Extract failed: ");
    append_chars(&mut v, &string_chars(&e.message()));
    vec_to_string(&v)
}

/// A key while the file tree has the focus; `page_height` rows make a
/// page, and the extract dialog offers `home`-expanded or `cwd` defaults.
pub fn handle_file_tree_keys(
    state: &mut AppState,
    key: KeyInput,
    page_height: usize,
    comparer: &mut Comparer,
    home: Option<&str>,
    cwd: Option<&str>,
)
    requires
        comparer_ok(*old(state), *old(comparer)),
        ({
            let br = tree_branch(*old(state), key);
            br == 0 || br == 1 || br == 3 || br == 5 || br == 6
        }) ==> old(state).image.layers@.len() > 0,
        tree_branch(*old(state), key) == 5 ==> old(state).tree_scroll_offset + page_height <= usize::MAX,
    ensures
        tree_step(*old(state), *final(state), key, page_height as int, old(state).image.layers@, str_opt(home), str_opt(cwd)),
        comparer_ok(*final(state), *final(comparer)),
        final(state).config == old(state).config,
{
    let ghost a = *state;
    let ghost layers = state.image.layers@;
    if state.config.key_matches("next_tree_node", key) {
        let tree = current_tree(state, comparer);
        proof {
            lemma_shown_same(*state, comparer.layers_view(), state.image.layers@);
        }
        proof {
            lemma_listed_canonical(a, tree);
        }
        state.select_next_tree_node(&tree);
    } else if state.config.key_matches("prev_tree_node", key) {
        let tree = current_tree(state, comparer);
        proof {
            lemma_shown_same(*state, comparer.layers_view(), state.image.layers@);
        }
        proof {
            lemma_listed_canonical(a, tree);
        }
        state.select_prev_tree_node(&tree);
    } else if state.config.key_matches("collapse", key) {
        state.toggle_collapse_selected();
    } else if state.config.key_matches("collapse_all", key) {
        let mut tree = current_tree(state, comparer);
        proof {
            lemma_shown_same(*state, comparer.layers_view(), state.image.layers@);
        }
        if state.collapsed_paths.len() == 0 {
            state.collapse_all(&mut tree);
            proof {
                lemma_listed_canonical(a, tree);
            }
        } else {
            state.expand_all(&mut tree);
        }
    } else if state.config.key_matches("page_up", key) {
        state.page_up(page_height);
    } else if state.config.key_matches("page_down", key) {
        let tree = current_tree(state, comparer);
        proof {
            lemma_shown_same(*state, comparer.layers_view(), state.image.layers@);
        }
        proof {
            lemma_listed_canonical(a, tree);
        }
        state.page_down(&tree, page_height);
    } else if state.config.key_matches("extract", key) {
        let tree = current_tree(state, comparer);
        proof {
            lemma_shown_same(*state, comparer.layers_view(), state.image.layers@);
        }
        match state.open_extract_modal(&tree, home, cwd) {
            Ok(()) => {},
            Err(e) => {
                state.status_message = Some(extract_failed(&e));
            },
        }
    } else if state.config.key_matches("toggle_diff_added", key) {
        state.toggle_diff_type(DiffType::Added);
    } else if state.config.key_matches("toggle_diff_removed", key) {
        state.toggle_diff_type(DiffType::Removed);
    } else if state.config.key_matches("toggle_diff_modified", key) {
        state.toggle_diff_type(DiffType::Modified);
    } else if state.config.key_matches("toggle_diff_unmodified", key) {
        state.toggle_diff_type(DiffType::Unmodified);
    } else if key.code == KeyCode::Left || key.code == KeyCode::Char('h') {
        match &state.selected_tree_path {
            Some(path) => {
                if !state.is_collapsed(path.as_str()) {
                    let p = path.clone();
                    let ghost before = state.collapsed_paths@;
                    state.collapsed_paths.push(p);
                    proof {
                        crate::state::lemma_string_set_push(before, state.collapsed_paths@.last());
                        assert(state.collapsed_paths@ =~= before.push(state.collapsed_paths@.last()));
                    }
                } else {
                    proof {
                        assert(string_set(state.collapsed_paths@).insert(a.selected_tree_path->0@)
                            =~= string_set(state.collapsed_paths@));
                    }
                }
            },
            None => {},
        }
    } else if key.code == KeyCode::Right || key.code == KeyCode::Char('l') {
        match &state.selected_tree_path {
            Some(path) => {
                let p = path.clone();
                state.collapsed_paths = crate::state::strings_without(&state.collapsed_paths, &p);
            },
            None => {},
        }
    }
}

/// A key while the filter is open.
pub fn handle_filter_key(state: &mut AppState, key: KeyInput)
    ensures
        filter_step(*old(state), *final(state), key),
        final(state).config == old(state).config,
        final(state).modal == old(state).modal,
{
    if state.config.key_matches("filter", key) || key.code == KeyCode::Esc {
        state.toggle_filter_active();
    } else if key.code == KeyCode::Backspace {
        state.pop_filter_char();
    } else {
        match key.code {
            KeyCode::Char(c) => state.push_filter_char(c),
            _ => {},
        }
    }
}

/// A key while a dialog is open.
pub fn handle_modal_key(state: &mut AppState, key: KeyInput, comparer: &mut Comparer, home: Option<&str>) -> (r: KeyOutcome)
    requires
        comparer_ok(*old(state), *old(comparer)),
        !(old(state).modal@ is DetailField) && !(old(state).modal@ is OpenImage) && key.code
            == KeyCode::Enter && !(key.code == KeyCode::Esc) ==> old(state).image.layers@.len() > 0,
    ensures
        modal_step(*old(state), *final(state), key, r, str_opt(home)),
        comparer_ok(*final(state), *final(comparer)),
        final(state).config == old(state).config,
{
    if state.detail_field_label().is_some() {
        if state.config.key_matches("next_layer", key) {
            state.select_next_layer();
        } else if state.config.key_matches("prev_layer", key) {
            state.select_prev_layer();
        } else if key.code == KeyCode::Esc || key.code == KeyCode::Enter {
            state.cancel_modal();
        } else if key.ctrl && key.code == KeyCode::Char('c') {
            match state.detail_field_value() {
                Some(value) => return KeyOutcome::Copy(value),
                None => {},
            }
        }
        return KeyOutcome::Continue;
    }
    if key.code == KeyCode::Esc {
        state.cancel_modal();
    } else if key.code == KeyCode::Enter {
        if state.modal_destination().is_some() {
            let tree = current_tree(state, comparer);
            proof {
                lemma_shown_same(*state, comparer.layers_view(), state.image.layers@);
            }
            match state.confirm_extract_modal(&tree, home) {
                Ok(Some(job)) => return KeyOutcome::Extract(job),
                Ok(None) => {},
                Err(e) => {
                    state.status_message = Some(extract_failed(&e));
                },
            }
        } else {
            match state.confirm_open_image_modal() {
                Some(url) => return KeyOutcome::Action(AppAction::OpenImage(url)),
                None => {},
            }
        }
    } else if key.code == KeyCode::Backspace {
        state.pop_modal_char();
    } else {
        match key.code {
            KeyCode::Char(c) => state.push_modal_char(c),
            _ => {},
        }
    }
    KeyOutcome::Continue
}

/// Which global action a key triggers when no dialog is open and the filter
/// is closed (7: none, the focused pane handles the key).
pub open spec fn global_branch(st: AppState, key: KeyInput) -> int {
    if pressed(st, "quit"@, key) {
        0
    } else if pressed(st, "open_image"@, key) {
        1
    } else if pressed(st, "focus_next"@, key) {
        2
    } else if pressed(st, "focus_prev"@, key) {
        3
    } else if pressed(st, "filter"@, key) {
        4
    } else if pressed(st, "toggle_attributes"@, key) {
        5
    } else if pressed(st, "toggle_wrap"@, key) {
        6
    } else if pressed(st, "toggle_sort"@, key) {
        7
    } else {
        8
    }
}

/// The state with the status line cleared.
pub open spec fn cleared(st: AppState) -> AppState {
    AppState { status_message: None, ..st }
}

/// What a key does when no dialog is open and the filter is closed.
pub open spec fn main_step(
    a: AppState,
    b: AppState,
    key: KeyInput,
    out: KeyOutcome,
    page: int,
    home: Option<Seq<char>>,
    cwd: Option<Seq<char>>,
) -> bool {
    let c = cleared(a);
    let br = global_branch(a, key);
    &&& br == 0 <==> (out matches KeyOutcome::Action(AppAction::Quit))
    &&& br != 0 ==> out is Continue
    &&& br == 0 ==> b == c
    &&& br == 1 ==> b.modal@ == (ModalView::OpenImage { url: a.image.reference@ }) && b == (AppState { modal: b.modal, ..c })
    &&& br == 2 ==> b == (AppState { focus: a.focus.next_spec(), ..c })
    &&& br == 3 ==> b == (AppState { focus: a.focus.prev_spec(), ..c })
    &&& br == 4 ==> b.filter_text@ == (if a.is_filter_active {
        Seq::empty()
    } else {
        a.filter_text@
    }) && b == (AppState {
        is_filter_active: !a.is_filter_active,
        filter_text: b.filter_text,
        tree_scroll_offset: 0,
        selected_tree_path: None,
        ..c
    })
    &&& br == 5 ==> b == (AppState { show_attributes: !a.show_attributes, ..c })
    &&& br == 6 ==> b == (AppState { wrap_tree: !a.wrap_tree, ..c })
    &&& br == 7 ==> b == (AppState {
        sort_mode: match a.sort_mode {
            crate::filetree::SortMode::Name => crate::filetree::SortMode::Size,
            crate::filetree::SortMode::Size => crate::filetree::SortMode::Name,
        },
        ..c
    })
    &&& br == 8 ==> match a.focus {
        FocusPane::LayerList => list_step(c, b, key, page, a.image.layers@),
        FocusPane::FileTree => tree_step(c, b, key, page, a.image.layers@, home, cwd),
        FocusPane::LayerDetails => details_step(c, b, key),
        FocusPane::ImageDetails => b == c,
    }
}

/// The key goes to the focused pane: no dialog, filter closed, no global key.
pub open spec fn pane_key(st: AppState, key: KeyInput) -> bool {
    st.modal@ is Closed && !st.is_filter_active && global_branch(st, key) == 8
}

/// Whether the key needs the shown tree (and so at least one layer).
pub open spec fn needs_tree(st: AppState, key: KeyInput) -> bool {
    if !(st.modal@ is Closed) {
        !(st.modal@ is DetailField) && !(st.modal@ is OpenImage) && key.code == KeyCode::Enter
    } else if st.is_filter_active {
        false
    } else if global_branch(st, key) != 8 {
        false
    } else {
        match st.focus {
            FocusPane::LayerList => list_branch(st, key) == 7,
            FocusPane::FileTree => {
                let br = tree_branch(st, key);
                br == 0 || br == 1 || br == 3 || br == 5 || br == 6
            },
            _ => false,
        }
    }
}

/// A key press while the explorer runs: a dialog takes it first, then the
/// filter, then the global keys, then the focused pane. `page_height` rows
/// make a page; the extract dialog offers `home`-expanded or `cwd` defaults.
pub fn handle_key(
    state: &mut AppState,
    key: KeyInput,
    comparer: &mut Comparer,
    page_height: usize,
    home: Option<&str>,
    cwd: Option<&str>,
) -> (r: KeyOutcome)
    requires
        comparer_ok(*old(state), *old(comparer)),
        needs_tree(*old(state), key) ==> old(state).image.layers@.len() > 0,
        pane_key(*old(state), key) && old(state).focus == FocusPane::LayerList && list_branch(
            *old(state),
            key,
        ) == 3 ==> old(state).selected_layer + page_height <= usize::MAX,
        pane_key(*old(state), key) && old(state).focus == FocusPane::FileTree && tree_branch(
            *old(state),
            key,
        ) == 5 ==> old(state).tree_scroll_offset + page_height <= usize::MAX,
    ensures
        comparer_ok(*final(state), *final(comparer)),
        !(old(state).modal@ is Closed) ==> modal_step(*old(state), *final(state), key, r, str_opt(home)),
        old(state).modal@ is Closed && old(state).is_filter_active ==> filter_step(
            *old(state),
            *final(state),
            key,
        ) && r is Continue,
        old(state).modal@ is Closed && !old(state).is_filter_active ==> main_step(
            *old(state),
            *final(state),
            key,
            r,
            page_height as int,
            str_opt(home),
            str_opt(cwd),
        ),
{
    if state.is_modal_active() {
        return handle_modal_key(state, key, comparer, home);
    }
    if state.is_filter_active {
        handle_filter_key(state, key);
        return KeyOutcome::Continue;
    }
    state.clear_status_message();
    if state.config.key_matches("quit", key) {
        return KeyOutcome::Action(AppAction::Quit);
    }
    if state.config.key_matches("open_image", key) {
        let reference = state.image.reference.clone();
        state.open_image_modal(reference.as_str());
        return KeyOutcome::Continue;
    }
    if state.config.key_matches("focus_next", key) {
        state.cycle_focus();
        return KeyOutcome::Continue;
    }
    if state.config.key_matches("focus_prev", key) {
        state.cycle_focus_reverse();
        return KeyOutcome::Continue;
    }
    if state.config.key_matches("filter", key) {
        state.toggle_filter_active();
        return KeyOutcome::Continue;
    }
    if state.config.key_matches("toggle_attributes", key) {
        state.toggle_show_attributes();
        return KeyOutcome::Continue;
    }
    if state.config.key_matches("toggle_wrap", key) {
        state.toggle_wrap_tree();
        return KeyOutcome::Continue;
    }
    if state.config.key_matches("toggle_sort", key) {
        state.toggle_sort_mode();
        return KeyOutcome::Continue;
    }
    match state.focus {
        FocusPane::LayerList => handle_layer_list_keys(state, key, page_height, comparer),
        FocusPane::FileTree => handle_file_tree_keys(state, key, page_height, comparer, home, cwd),
        FocusPane::LayerDetails => handle_layer_details_keys(state, key),
        FocusPane::ImageDetails => {},
    }
    KeyOutcome::Continue
}

} // verus!
