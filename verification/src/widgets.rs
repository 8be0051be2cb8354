//! What the panes show: titles, rows, detail lines, the status text, and
//! the scroll positions that keep the selection and the content in view.
use vstd::prelude::*;
use crate::image::Layer;
use crate::matching::regex_replace_all;
use crate::report::{AnalysisItem, AnalysisSection};
use crate::state::{AppState, CompareMode, FocusPane, LayerData, ModalView, opt_view};
use crate::filetree::{FileNode, InfoView, TarEntryType};
use crate::text::{
    append_chars, decimal, decimal_chars, same_str, str_to_chars, string_chars, sub_chars, vec_to_string,
};
use crate::utils::{
    format_size, is_control_char, sanitize_and_truncate, sanitized, size_text, truncated, without_ansi,
};

verus! {

/// The layer-details pane.
pub struct LayerDetailsWidget;

/// The layer list.
pub struct LayerListWidget;

/// The file-tree pane.
pub struct FileTreeWidget;

/// The status bar.
pub struct StatusBarWidget;

/// The dialogs over the panes.
pub struct ModalWidget;

/// The filter line under the panes.
pub struct FilterWidget;

/// The image-details pane, which shows the analysis report.
pub struct ImageDetailsWidget;

/// The dialog shown while an image loads.
pub struct LoadingWidget;


/// A single detail field with its display label and full value.
#[derive(Debug)]
pub struct DetailField {
    pub label: &'static str,
    pub value: String,
}

/// The strings of `tags` joined with `", "`.
pub open spec fn join_tags(tags: Seq<Seq<char>>) -> Seq<char>
    decreases tags.len(),
{
    if tags.len() == 0 {
        Seq::empty()
    } else if tags.len() == 1 {
        tags[0]
    } else {
        join_tags(tags.drop_last()) + ", "@ + tags.last()
    }
}

/// `s` when present, else `"n/a"`.
pub open spec fn or_na(s: Option<Seq<char>>) -> Seq<char> {
    match s {
        Some(v) => v,
        None => "n/a"@,
    }
}

/// The labels and values listed for layer `l`, in order.
pub open spec fn layer_fields(l: Layer) -> Seq<(Seq<char>, Seq<char>)> {
    let tags = l.tags@.map_values(|t: String| t@);
    seq![
        ("Index"@, decimal(l.index as nat)),
        ("ID"@, or_na(opt_view(l.id))),
        ("Size"@, size_text(l.size as nat)),
        ("Command"@, l.command@),
        ("Digest"@, or_na(opt_view(l.digest))),
        ("Tags"@, if tags.len() == 0 { "n/a"@ } else { join_tags(tags) }),
    ]
}

/// The fields listed for the selected layer (none when no layer is selected).
pub open spec fn state_fields(st: AppState) -> Seq<(Seq<char>, Seq<char>)> {
    if st.selected_layer < st.image.layers@.len() {
        layer_fields(st.image.layers@[st.selected_layer as int])
    } else {
        Seq::empty()
    }
}

/// The value of the first field labelled `label` (empty when there is none).
pub open spec fn field_value(fs: Seq<(Seq<char>, Seq<char>)>, label: Seq<char>) -> Seq<char>
    decreases fs.len(),
{
    if fs.len() == 0 {
        Seq::empty()
    } else if fs[0].0 == label {
        fs[0].1
    } else {
        field_value(fs.drop_first(), label)
    }
}

/// The views of a sequence of fields.
pub open spec fn fields_view(v: Seq<DetailField>) -> Seq<(Seq<char>, Seq<char>)> {
    v.map_values(|f: DetailField| (f.label@, f.value@))
}

fn or_na_string(s: &Option<String>) -> (r: String)
    ensures
        r@ == or_na(opt_view(*s)),
{
    match s {
        Some(v) => v.clone(),
        None => "n/a".to_owned(),
    }
}

fn tags_text(tags: &Vec<String>) -> (r: String)
    ensures
        r@ == if tags@.len() == 0 {
            "n/a"@
        } else {
            join_tags(tags@.map_values(|t: String| t@))
        },
{
    if tags.len() == 0 {
        return "n/a".to_owned();
    }
    let ghost tv = tags@.map_values(|t: String| t@);
    let mut out = string_chars(&tags[0]);
    let sep = str_to_chars(", ");
    let mut i: usize = 1;
    proof {
        assert(tv.take(1) =~= seq![tv[0]]);
    }
    while i < tags.len()
        invariant
            tv == tags@.map_values(|t: String| t@),
            1 <= i <= tv.len(),
            sep@ == ", "@,
            out@ == join_tags(tv.take(i as int)),
        decreases tv.len() - i,
    {
        proof {
            assert(tv.take(i + 1).drop_last() =~= tv.take(i as int));
            assert(tv.take(i + 1).last() == tags@[i as int]@);
        }
        append_chars(&mut out, &sep);
        append_chars(&mut out, &string_chars(&tags[i]));
        i = i + 1;
    }
    proof {
        assert(tv.take(tv.len() as int) =~= tv);
    }
    vec_to_string(&out)
}

impl LayerDetailsWidget {
    /// The ordered list of detail fields for the selected layer.
    pub fn fields(state: &AppState) -> (r: Vec<DetailField>)
        ensures
            fields_view(r@) == state_fields(*state),
    {
        let mut fields: Vec<DetailField> = Vec::new();
        if state.selected_layer < state.image.layers.len() {
            let layer = &state.image.layers[state.selected_layer];
            fields.push(DetailField { label: "Index", value: vec_to_string(&decimal_chars(layer.index as u64)) });
            fields.push(DetailField { label: "ID", value: or_na_string(&layer.id) });
            fields.push(DetailField { label: "Size", value: format_size(layer.size) });
            fields.push(DetailField { label: "Command", value: layer.command.clone() });
            fields.push(DetailField { label: "Digest", value: or_na_string(&layer.digest) });
            fields.push(DetailField { label: "Tags", value: tags_text(&layer.tags) });
            proof {
                assert(fields_view(fields@) =~= layer_fields(*layer));
            }
        } else {
            proof {
                assert(fields_view(fields@) =~= Seq::<(Seq<char>, Seq<char>)>::empty());
            }
        }
        fields
    }

    /// How many detail fields the selected layer has.
    pub fn field_count(state: &AppState) -> (r: usize)
        ensures
            r == state_fields(*state).len(),
    {
        Self::fields(state).len()
    }
}

impl AppState {
    /// The full value of the detail field whose dialog is open, if one is.
    pub fn detail_field_value(&self) -> (r: Option<String>)
        ensures
            match self.modal@ {
                ModalView::DetailField { label } => r matches Some(v) && v@ == field_value(
                    state_fields(*self),
                    label,
                ),
                _ => r is None,
            },
    {
        let label = match self.detail_field_label() {
            Some(l) => l,
            None => return None,
        };
        let fields = LayerDetailsWidget::fields(self);
        let ghost fv = fields_view(fields@);
        let mut i: usize = 0;
        proof {
            assert(fv.skip(0) =~= fv);
        }
        while i < fields.len()
            invariant
                fv == fields_view(fields@),
                fv == state_fields(*self),
                self.modal@ matches ModalView::DetailField { label: l } && l == label@,
                i <= fv.len(),
                field_value(fv, label@) == field_value(fv.skip(i as int), label@),
            decreases fv.len() - i,
        {
            proof {
                assert(fv[i as int] == (fields@[i as int].label@, fields@[i as int].value@));
                assert(fv.skip(i as int)[0] == fv[i as int]);
                assert(fv.skip(i as int).drop_first() =~= fv.skip(i + 1));
            }
            if same_str(fields[i].label, label) {
                let v = fields[i].value.clone();
                assert(v@ == fv[i as int].1);
                assert(fv.skip(i as int)[0].0 == label@);
                assert(field_value(fv.skip(i as int), label@) == fv.skip(i as int)[0].1);
                assert(field_value(fv, label@) == v@);
                return Some(v);
            }
            i = i + 1;
        }
        Some(String::new())
    }
}


/// The label of a compare mode in pane titles.
pub open spec fn mode_label(m: CompareMode) -> Seq<char> {
    match m {
        CompareMode::Natural => "layer"@,
        CompareMode::Aggregated => "all"@,
    }
}

fn mode_label_chars(m: CompareMode) -> (r: Vec<char>)
    ensures
        r@ == mode_label(m),
{
    match m {
        CompareMode::Natural => str_to_chars("layer"),
        CompareMode::Aggregated => str_to_chars("all"),
    }
}

/// The title of the layer list: its compare mode, and `[*]` when focused.
pub open spec fn layer_list_title_text(st: AppState) -> Seq<char> {
    "Layers ["@ + mode_label(st.compare_mode) + "]"@ + if st.focus == FocusPane::LayerList {
        " [*]"@
    } else {
        Seq::empty()
    }
}

/// The title of the file tree: its compare mode, `[*]` when focused, then
/// the attribute, wrap and filter flags that are on.
pub open spec fn file_tree_title_text(st: AppState) -> Seq<char> {
    "File Tree ["@ + mode_label(st.compare_mode) + "]"@ + (if st.focus == FocusPane::FileTree {
        " [*]"@
    } else {
        Seq::empty()
    }) + (if st.show_attributes {
        " [attrs]"@
    } else {
        Seq::empty()
    }) + (if st.wrap_tree {
        " [wrap]"@
    } else {
        Seq::empty()
    }) + if st.is_filter_active {
        " [filter: "@ + st.filter_text@ + "]"@
    } else {
        Seq::empty()
    }
}

impl LayerListWidget {
    /// The title of the layer list.
    pub fn title(state: &AppState) -> (r: String)
        ensures
            r@ == layer_list_title_text(*state),
    {
        let mut v = str_to_chars("Layers [");
        append_chars(&mut v, &mode_label_chars(state.compare_mode));
        append_chars(&mut v, &str_to_chars("]"));
        if state.focus == FocusPane::LayerList {
            append_chars(&mut v, &str_to_chars(" [*]"));
        } else {
            assert(v@ =~= v@ + Seq::<char>::empty());
        }
        vec_to_string(&v)
    }
}

impl FileTreeWidget {
    /// The title of the file tree.
    pub fn title(state: &AppState) -> (r: String)
        ensures
            r@ == file_tree_title_text(*state),
    {
        let mut v = str_to_chars("File Tree [");
        append_chars(&mut v, &mode_label_chars(state.compare_mode));
        append_chars(&mut v, &str_to_chars("]"));
        let ghost t0 = v@;
        if state.focus == FocusPane::FileTree {
            append_chars(&mut v, &str_to_chars(" [*]"));
        }
        let ghost t1 = v@;
        assert(t1 =~= t0 + if state.focus == FocusPane::FileTree { " [*]"@ } else { Seq::<char>::empty() });
        if state.show_attributes {
            append_chars(&mut v, &str_to_chars(" [attrs]"));
        }
        let ghost t2 = v@;
        assert(t2 =~= t1 + if state.show_attributes { " [attrs]"@ } else { Seq::<char>::empty() });
        if state.wrap_tree {
            append_chars(&mut v, &str_to_chars(" [wrap]"));
        }
        let ghost t3 = v@;
        assert(t3 =~= t2 + if state.wrap_tree { " [wrap]"@ } else { Seq::<char>::empty() });
        if state.is_filter_active {
            append_chars(&mut v, &str_to_chars(" [filter: "));
            append_chars(&mut v, &string_chars(&state.filter_text));
            append_chars(&mut v, &str_to_chars("]"));
            assert(v@ =~= t3 + (" [filter: "@ + state.filter_text@ + "]"@));
        } else {
            assert(v@ =~= t3 + Seq::<char>::empty());
        }
        vec_to_string(&v)
    }
}

/// The text of the status bar: the status message if there is one, else
/// the filter help while filtering, else the key help of the focused pane.
pub open spec fn status_text_of(st: AppState) -> Seq<char> {
    match st.status_message {
        Some(m) => m@,
        None => if st.is_filter_active {
            "Filter: type pattern, Esc close"@
        } else {
            match st.focus {
                FocusPane::LayerList => "\u{2191}\u{2193}/kj layer  Tab focus  Ctrl+A aggregated  Ctrl+L layer  Space collapse  Ctrl+O open  q quit"@,
                FocusPane::FileTree => "\u{2191}\u{2193}/kj nav  PgUp/dn/u/d page  Space collapse  Ctrl+Space all  Ctrl+O open  Ctrl+Shift+O sort  Ctrl+B attrs  Ctrl+F filter  Ctrl+E extract  Ctrl+A/R/M/U toggle  q quit"@,
                _ => "Tab focus  \u{2190}\u{2192} pane  Ctrl+O open  q quit"@,
            }
        },
    }
}

impl StatusBarWidget {
    /// The text of the status bar.
    pub fn text(state: &AppState) -> (r: String)
        ensures
            r@ == status_text_of(*state),
    {
        match &state.status_message {
            Some(m) => m.clone(),
            None => if state.is_filter_active {
                vec_to_string(&str_to_chars("Filter: type pattern, Esc close"))
            } else {
                match state.focus {
                    FocusPane::LayerList => vec_to_string(&str_to_chars("\u{2191}\u{2193}/kj layer  Tab focus  Ctrl+A aggregated  Ctrl+L layer  Space collapse  Ctrl+O open  q quit")),
                    FocusPane::FileTree => vec_to_string(&str_to_chars("\u{2191}\u{2193}/kj nav  PgUp/dn/u/d page  Space collapse  Ctrl+Space all  Ctrl+O open  Ctrl+Shift+O sort  Ctrl+B attrs  Ctrl+F filter  Ctrl+E extract  Ctrl+A/R/M/U toggle  q quit")),
                    _ => vec_to_string(&str_to_chars("Tab focus  \u{2190}\u{2192} pane  Ctrl+O open  q quit")),
                }
            },
        }
    }
}

/// The row of the layer list for a layer: its index and size, then its
/// command sanitized and cut to the columns left of `inner_width`.
pub open spec fn layer_row_text(index: nat, size: nat, command: Seq<char>, inner_width: int) -> Seq<char> {
    let prefix = decimal(index) + ": ["@ + size_text(size) + "] "@;
    let width = if inner_width > prefix.len() { inner_width - prefix.len() } else { 0 };
    prefix + truncated(sanitized(command), width)
}

impl LayerListWidget {
    /// The row of the layer list for a layer.
    pub fn row(layer: &LayerData, inner_width: usize) -> (r: String)
        ensures
            r@ == layer_row_text(layer.index as nat, layer.size as nat, layer.command@, inner_width as int),
    {
        let mut prefix = decimal_chars(layer.index as u64);
        append_chars(&mut prefix, &str_to_chars(": ["));
        append_chars(&mut prefix, &string_chars(&format_size(layer.size)));
        append_chars(&mut prefix, &str_to_chars("] "));
        let width = if inner_width > prefix.len() {
            inner_width - prefix.len()
        } else {
            0
        };
        let command = sanitize_and_truncate(layer.command.as_str(), width);
        append_chars(&mut prefix, &string_chars(&command));
        vec_to_string(&prefix)
    }
}

/// The two parts of a line of the layer-details pane: the label with `": "`,
/// and the value sanitized and cut to the columns left of `inner_width`.
pub open spec fn detail_line_parts(label: Seq<char>, value: Seq<char>, inner_width: int) -> (Seq<char>, Seq<char>) {
    let prefix = label + ": "@;
    let width = if inner_width > prefix.len() { inner_width - prefix.len() } else { 0 };
    (prefix, truncated(sanitized(value), width))
}

impl LayerDetailsWidget {
    /// The two parts of a line of the layer-details pane for `field`.
    pub fn detail_line(field: &DetailField, inner_width: usize) -> (r: (String, String))
        ensures
            (r.0@, r.1@) == detail_line_parts(field.label@, field.value@, inner_width as int),
    {
        let mut prefix = str_to_chars(field.label);
        append_chars(&mut prefix, &str_to_chars(": "));
        let width = if inner_width > prefix.len() {
            inner_width - prefix.len()
        } else {
            0
        };
        (vec_to_string(&prefix), sanitize_and_truncate(field.value.as_str(), width))
    }
}

/// `s` with tabs turned into spaces and the control characters other than
/// line breaks dropped.
pub open spec fn keep_lines_clean(s: Seq<char>) -> Seq<char>
    decreases s.len(),
{
    if s.len() == 0 {
        Seq::empty()
    } else {
        let rest = keep_lines_clean(s.drop_last());
        let c = s.last();
        if c == '\t' {
            rest.push(' ')
        } else if is_control_char(c) && c != '\n' {
            rest
        } else {
            rest.push(c)
        }
    }
}

/// A detail value as the full-value dialog shows it: ANSI escapes removed,
/// tabs turned into spaces, and control characters other than line breaks
/// dropped.
pub open spec fn modal_value_text(value: Seq<char>) -> Seq<char> {
    keep_lines_clean(without_ansi(value))
}

impl ModalWidget {
    /// A detail value as the full-value dialog shows it.
    pub fn sanitize_value(value: &str) -> (r: String)
        ensures
            r@ == modal_value_text(value@),
    {
        let stripped = match regex_replace_all(r"\x1B\[[0-9;]*[A-Za-z]", value, "") {
            Some(s) => s,
            None => vec_to_string(&str_to_chars(value)),
        };
        let chars = str_to_chars(stripped.as_str());
        let mut out: Vec<char> = Vec::new();
        let mut i: usize = 0;
        proof {
            assert(chars@.take(0) =~= Seq::<char>::empty());
        }
        while i < chars.len()
            invariant
                i <= chars@.len(),
                out@ == keep_lines_clean(chars@.take(i as int)),
            decreases chars@.len() - i,
        {
            let c = chars[i];
            proof {
                assert(chars@.take(i + 1).drop_last() =~= chars@.take(i as int));
                assert(chars@.take(i + 1).last() == c);
            }
            if c == '\t' {
                out.push(' ');
            } else if (c <= '\u{1f}' || ('\u{7f}' <= c && c <= '\u{9f}')) && c != '\n' {
            } else {
                out.push(c);
            }
            i = i + 1;
        }
        proof {
            assert(chars@.take(chars@.len() as int) =~= chars@);
        }
        vec_to_string(&out)
    }
}

/// Where `x` first occurs in `s` (`-1` when it does not).
pub open spec fn position_of(s: Seq<Seq<char>>, x: Seq<char>) -> int
    decreases s.len(),
{
    if s.len() == 0 {
        -1
    } else {
        let p = position_of(s.drop_last(), x);
        if p >= 0 {
            p
        } else if s.last() == x {
            s.len() - 1
        } else {
            -1
        }
    }
}

/// The scroll offset that keeps the selected row (at `index`, or `-1` when
/// it is not listed) inside a viewport of `height` rows, no further down
/// than the last page of `rows` rows.
pub open spec fn followed_offset(offset: int, index: int, height: int, rows: int) -> int {
    let moved = if index < 0 {
        offset
    } else if index < offset {
        index
    } else if index >= offset + height {
        if height >= 1 {
            if index >= height - 1 { index - (height - 1) } else { 0 }
        } else {
            // A viewport of no rows: the row after the selection.
            index + 1
        }
    } else {
        offset
    };
    let max_offset = if rows > height { rows - height } else { 0 };
    if moved < max_offset { moved } else { max_offset }
}

impl AppState {
    /// Scrolls the file tree so that the selected row stays visible in a
    /// viewport of `height` rows over the listed `visible` paths.
    pub fn follow_selection(&mut self, visible: &Vec<String>, height: usize)
        requires
            visible@.len() < usize::MAX,
        ensures
            final(self).tree_scroll_offset == followed_offset(
                old(self).tree_scroll_offset as int,
                match old(self).selected_tree_path {
                    Some(p) => position_of(visible@.map_values(|v: String| v@), p@),
                    None => -1,
                },
                height as int,
                visible@.len() as int,
            ),
            *final(self) == (AppState { tree_scroll_offset: final(self).tree_scroll_offset, ..*old(self) }),
    {
        let ghost vs = visible@.map_values(|v: String| v@);
        let mut index: Option<usize> = None;
        match &self.selected_tree_path {
            Some(sel) => {
                let mut i: usize = 0;
                proof {
                    assert(vs.take(0) =~= Seq::<Seq<char>>::empty());
                }
                while i < visible.len() && index.is_none()
                    invariant
                        vs == visible@.map_values(|v: String| v@),
                        i <= visible@.len(),
                        match index {
                            Some(j) => j < i && position_of(vs.take(i as int), sel@) == j,
                            None => position_of(vs.take(i as int), sel@) == -1,
                        },
                        index is Some ==> position_of(vs.take(i as int), sel@) == position_of(vs, sel@),
                    decreases visible@.len() - i,
                {
                    proof {
                        assert(vs.take(i + 1).drop_last() =~= vs.take(i as int));
                        assert(vs.take(i + 1).last() == visible@[i as int]@);
                    }
                    if same_str(visible[i].as_str(), sel.as_str()) {
                        index = Some(i);
                        proof {
                            lemma_position_prefix(vs, sel@, i as int + 1);
                        }
                    }
                    i = i + 1;
                }
                proof {
                    if index is None {
                        assert(vs.take(i as int) =~= vs);
                    }
                }
            },
            None => {},
        }
        let rows = visible.len();
        let mut offset = self.tree_scroll_offset;
        match index {
            Some(j) => {
                if j < offset {
                    offset = j;
                } else if j - offset >= height {
                    offset = if height >= 1 {
                        if j >= height - 1 { j - (height - 1) } else { 0 }
                    } else {
                        j + 1
                    };
                }
            },
            None => {},
        }
        let max_offset = if rows > height { rows - height } else { 0 };
        if offset > max_offset {
            offset = max_offset;
        }
        self.tree_scroll_offset = offset;
    }
}

/// A position found in a prefix of `s` is the position in `s`.
proof fn lemma_position_prefix(s: Seq<Seq<char>>, x: Seq<char>, n: int)
    requires
        0 <= n <= s.len(),
        position_of(s.take(n), x) >= 0,
    ensures
        position_of(s, x) == position_of(s.take(n), x),
    decreases s.len() - n,
{
    if n < s.len() {
        assert(s.take(n + 1).drop_last() =~= s.take(n));
        lemma_position_prefix(s, x, n + 1);
    } else {
        assert(s.take(n) =~= s);
    }
}

/// The rows that lines of the given widths take when wrapped at
/// `max_width` columns (an empty line still takes one row; no wrapping when
/// `max_width` is zero).
pub open spec fn wrapped_rows(widths: Seq<usize>, max_width: int) -> int
    decreases widths.len(),
{
    if widths.len() == 0 {
        0
    } else if max_width == 0 {
        widths.len() as int
    } else {
        let w = widths.last() as int;
        wrapped_rows(widths.drop_last(), max_width) + if w == 0 { 1 } else { (w + max_width - 1) / max_width }
    }
}

/// The rows that lines of the given widths take when wrapped at `max_width`.
pub fn estimate_wrapped_lines(widths: &Vec<usize>, max_width: usize) -> (r: usize)
    requires
        wrapped_rows(widths@, max_width as int) <= usize::MAX,
    ensures
        r == wrapped_rows(widths@, max_width as int),
{
    if max_width == 0 {
        proof {
            lemma_rows_unwrapped(widths@);
        }
        return widths.len();
    }
    let mut total: usize = 0;
    let mut i: usize = 0;
    proof {
        assert(widths@.take(0) =~= Seq::<usize>::empty());
        lemma_rows_prefix_le(widths@, max_width as int, 0);
    }
    while i < widths.len()
        invariant
            max_width > 0,
            i <= widths@.len(),
            total == wrapped_rows(widths@.take(i as int), max_width as int),
            wrapped_rows(widths@, max_width as int) <= usize::MAX,
        decreases widths@.len() - i,
    {
        proof {
            assert(widths@.take(i + 1).drop_last() =~= widths@.take(i as int));
            lemma_rows_prefix_le(widths@, max_width as int, i + 1);
        }
        let w = widths[i];
        let add = if w == 0 {
            1
        } else {
            (w - 1) / max_width + 1
        };
        proof {
            if w != 0 {
                let wi = w as int;
                let mi = max_width as int;
                assert((wi + mi - 1) / mi == (wi - 1) / mi + 1) by (nonlinear_arith)
                    requires
                        mi > 0,
                        wi > 0,
                {
                    vstd::arithmetic::div_mod::lemma_div_plus_one(wi - 1, mi);
                }
            }
        }
        total = total + add;
        i = i + 1;
    }
    proof {
        assert(widths@.take(i as int) =~= widths@);
    }
    total
}

proof fn lemma_rows_unwrapped(widths: Seq<usize>)
    ensures
        wrapped_rows(widths, 0) == widths.len(),
{
}

proof fn lemma_rows_prefix_le(widths: Seq<usize>, max_width: int, n: int)
    requires
        0 <= n <= widths.len(),
        max_width > 0,
    ensures
        0 <= wrapped_rows(widths.take(n), max_width) <= wrapped_rows(widths, max_width),
    decreases widths.len() - n,
{
    if n < widths.len() {
        assert(widths.take(n + 1).drop_last() =~= widths.take(n));
        assert(widths.take(n + 1).last() == widths[n]);
        let w = widths[n] as int;
        assert((w + max_width - 1) / max_width >= 0) by (nonlinear_arith)
            requires
                w >= 0,
                max_width > 0,
        ;
        lemma_rows_prefix_le(widths, max_width, n + 1);
        lemma_rows_nonneg(widths.take(n), max_width);
    } else {
        assert(widths.take(n) =~= widths);
        lemma_rows_nonneg(widths, max_width);
    }
}

proof fn lemma_rows_nonneg(widths: Seq<usize>, max_width: int)
    requires
        max_width > 0,
    ensures
        wrapped_rows(widths, max_width) >= 0,
    decreases widths.len(),
{
    if widths.len() > 0 {
        lemma_rows_nonneg(widths.drop_last(), max_width);
        let w = widths.last() as int;
        assert((w + max_width - 1) / max_width >= 0) by (nonlinear_arith)
            requires
                w >= 0,
                max_width > 0,
        ;
    }
}

impl AppState {
    /// Keeps the image-details scroll inside content of `total_rows` rows
    /// shown `content_height` rows at a time (back to the top when it all fits).
    pub fn clamp_details_scroll(&mut self, total_rows: usize, content_height: usize)
        ensures
            final(self).image_details_scroll == if total_rows > content_height {
                let max_scroll = total_rows - content_height;
                if old(self).image_details_scroll > max_scroll { max_scroll } else { old(self).image_details_scroll as int }
            } else {
                0
            },
            *final(self) == (AppState { image_details_scroll: final(self).image_details_scroll, ..*old(self) }),
    {
        if total_rows > content_height {
            let max_scroll = total_rows - content_height;
            if self.image_details_scroll > max_scroll {
                self.image_details_scroll = max_scroll;
            }
        } else {
            self.image_details_scroll = 0;
        }
    }
}


/// How many times `c` occurs in `s`.
pub open spec fn count_char(s: Seq<char>, c: char) -> nat
    decreases s.len(),
{
    if s.len() == 0 {
        0
    } else {
        count_char(s.drop_last(), c) + if s.last() == c { 1nat } else { 0nat }
    }
}

/// The part of `path` after its last `/` (all of it when it has none).
pub open spec fn last_component(path: Seq<char>) -> Seq<char>
    decreases path.len(),
{
    if path.len() == 0 {
        path
    } else if path.last() == '/' {
        Seq::empty()
    } else {
        last_component(path.drop_last()).push(path.last())
    }
}

/// `n` copies of two spaces.
pub open spec fn indent(n: nat) -> Seq<char>
    decreases n,
{
    if n == 0 {
        Seq::empty()
    } else {
        indent((n - 1) as nat) + "  "@
    }
}

/// The row of the file tree for the entry at `path`: its attributes when
/// they are shown (owner ids and size), two spaces per directory above it,
/// its name, a `/` after a directory and the target after a symbolic link.
pub open spec fn tree_row_text(path: Seq<char>, info: InfoView, show_attributes: bool) -> Seq<char> {
    let attrs = if show_attributes {
        "["@ + decimal(info.uid as nat) + ":"@ + decimal(info.gid as nat) + "] "@ + size_text(info.size as nat) + " "@
    } else {
        Seq::empty()
    };
    let tail = match info.entry_type {
        TarEntryType::Directory => "/"@,
        TarEntryType::Symlink => " -> "@ + info.linkname,
        _ => Seq::empty(),
    };
    attrs + indent(count_char(path, '/')) + last_component(path) + tail
}

impl FileTreeWidget {
    /// The row of the file tree for the entry at `path` holding `node`.
    pub fn row(path: &str, node: &FileNode, show_attributes: bool) -> (r: String)
        ensures
            r@ == tree_row_text(path@, node.info@, show_attributes),
    {
        let chars = str_to_chars(path);
        let mut out: Vec<char> = Vec::new();
        if show_attributes {
            append_chars(&mut out, &str_to_chars("["));
            append_chars(&mut out, &decimal_chars(node.info.uid as u64));
            append_chars(&mut out, &str_to_chars(":"));
            append_chars(&mut out, &decimal_chars(node.info.gid as u64));
            append_chars(&mut out, &str_to_chars("] "));
            append_chars(&mut out, &string_chars(&format_size(node.info.size)));
            append_chars(&mut out, &str_to_chars(" "));
        }
        let ghost a = out@;
        let mut depth: usize = 0;
        let mut start: usize = 0;
        let mut i: usize = 0;
        proof {
            assert(chars@.take(0) =~= Seq::<char>::empty());
        }
        while i < chars.len()
            invariant
                i <= chars@.len(),
                depth <= i,
                start <= i,
                depth == count_char(chars@.take(i as int), '/'),
                chars@.subrange(start as int, i as int) == last_component(chars@.take(i as int)),
            decreases chars@.len() - i,
        {
            proof {
                assert(chars@.take(i + 1).drop_last() =~= chars@.take(i as int));
                assert(chars@.take(i + 1).last() == chars@[i as int]);
            }
            if chars[i] == '/' {
                depth = depth + 1;
                start = i + 1;
                proof {
                    assert(chars@.subrange(start as int, i + 1) =~= Seq::<char>::empty());
                }
            } else {
                proof {
                    assert(chars@.subrange(start as int, i + 1) =~= chars@.subrange(start as int, i as int).push(
                        chars@[i as int],
                    ));
                }
            }
            i = i + 1;
        }
        proof {
            assert(chars@.take(i as int) =~= chars@);
        }
        let mut k: usize = 0;
        while k < depth
            invariant
                k <= depth,
                out@ == a + indent(k as nat),
            decreases depth - k,
        {
            append_chars(&mut out, &str_to_chars("  "));
            k = k + 1;
        }
        append_chars(&mut out, &sub_chars(&chars, start, chars.len()));
        let ghost b = out@;
        match node.info.entry_type {
            TarEntryType::Directory => {
                append_chars(&mut out, &str_to_chars("/"));
            },
            TarEntryType::Symlink => {
                append_chars(&mut out, &str_to_chars(" -> "));
                append_chars(&mut out, &string_chars(&node.info.linkname));
                assert(out@ =~= b + (" -> "@ + node.info.linkname@));
            },
            _ => {
                assert(out@ =~= b + Seq::<char>::empty());
            },
        }
        proof {
            if !show_attributes {
                assert(a =~= Seq::<char>::empty());
            }
        }
        vec_to_string(&out)
    }
}

/// A pane title, with `[*]` behind it when that pane has the focus.
pub open spec fn focused_title(name: Seq<char>, focused: bool) -> Seq<char> {
    if focused {
        name + " [*]"@
    } else {
        name
    }
}

fn focused_title_string(name: &str, focused: bool) -> (r: String)
    ensures
        r@ == focused_title(name@, focused),
{
    let mut v = str_to_chars(name);
    if focused {
        append_chars(&mut v, &str_to_chars(" [*]"));
    }
    vec_to_string(&v)
}

impl LayerDetailsWidget {
    /// The title of the layer-details pane.
    pub fn title(state: &AppState) -> (r: String)
        ensures
            r@ == focused_title("Layer Details"@, state.focus == FocusPane::LayerDetails),
    {
        focused_title_string("Layer Details", state.focus == FocusPane::LayerDetails)
    }
}

impl ImageDetailsWidget {
    /// The title of the image-details pane.
    pub fn title(state: &AppState) -> (r: String)
        ensures
            r@ == focused_title("Image Details"@, state.focus == FocusPane::ImageDetails),
    {
        focused_title_string("Image Details", state.focus == FocusPane::ImageDetails)
    }
}

/// What the filter line shows after its label: the pattern typed so far,
/// or `<empty>` while nothing is typed.
pub open spec fn filter_shown(filter_text: Seq<char>) -> Seq<char> {
    if filter_text.len() == 0 {
        "<empty>"@
    } else {
        filter_text
    }
}

impl FilterWidget {
    /// The text the filter line shows after its label.
    pub fn shown_text(state: &AppState) -> (r: String)
        ensures
            r@ == filter_shown(state.filter_text@),
    {
        if string_chars(&state.filter_text).len() == 0 {
            vec_to_string(&str_to_chars("<empty>"))
        } else {
            state.filter_text.clone()
        }
    }
}

/// `x` held between `lo` and `hi` (with `lo <= hi`).
pub open spec fn clamped(x: int, lo: int, hi: int) -> int {
    if x < lo {
        lo
    } else if x > hi {
        hi
    } else {
        x
    }
}

/// `a - b`, or 0 where `b` is the larger.
pub open spec fn minus_or_zero(a: int, b: int) -> int {
    if a > b {
        a - b
    } else {
        0
    }
}

fn clamp_u16(x: u16, lo: u16, hi: u16) -> (r: u16)
    requires
        lo <= hi,
    ensures
        r == clamped(x as int, lo as int, hi as int),
{
    if x < lo {
        lo
    } else if x > hi {
        hi
    } else {
        x
    }
}

/// The offsets from the left and the top of an area at which a box of the
/// given size stands centred in it: half of the room left over, rounded
/// down, or 0 where the box does not fit.
pub open spec fn centered_offsets_of(area_width: int, area_height: int, width: int, height: int) -> (int, int) {
    (minus_or_zero(area_width, width) / 2, minus_or_zero(area_height, height) / 2)
}

/// Where a box of `width` by `height` starts when centred in an area of
/// `area_width` by `area_height`, as offsets from the area's left and top.
pub fn centered_offsets(area_width: u16, area_height: u16, width: u16, height: u16) -> (r: (u16, u16))
    ensures
        (r.0 as int, r.1 as int) == centered_offsets_of(
            area_width as int,
            area_height as int,
            width as int,
            height as int,
        ),
{
    (area_width.saturating_sub(width) / 2, area_height.saturating_sub(height) / 2)
}

/// The width of a one-line input dialog: the area less a margin of 4
/// columns, kept between 20 and 60.
pub open spec fn small_modal_width_of(area_width: int) -> int {
    clamped(minus_or_zero(area_width, 4), 20, 60)
}

/// The size of the full-value dialog: three quarters of the area each way,
/// rounded down.
pub open spec fn large_modal_size_of(area_width: int, area_height: int) -> (int, int) {
    (area_width * 75 / 100, area_height * 75 / 100)
}

impl ModalWidget {
    /// The width of a one-line input dialog in an area `area_width` wide;
    /// such a dialog is 3 rows high.
    pub fn small_modal_width(area_width: u16) -> (r: u16)
        ensures
            r as int == small_modal_width_of(area_width as int),
    {
        clamp_u16(area_width.saturating_sub(4), 20, 60)
    }

    /// The size of the full-value dialog in an area of the given size.
    pub fn large_modal_size(area_width: u16, area_height: u16) -> (r: (u16, u16))
        requires
            area_width * 75 <= u16::MAX,
            area_height * 75 <= u16::MAX,
        ensures
            (r.0 as int, r.1 as int) == large_modal_size_of(area_width as int, area_height as int),
    {
        ((area_width * 75) / 100, (area_height * 75) / 100)
    }
}

/// The size of the loading dialog: 80% of the area's width and 30% of its
/// height, rounded down, each kept between a floor (20 columns, 7 rows, or
/// less where the area is small) and the area less a border of 2.
pub open spec fn loading_size_of(area_width: int, area_height: int) -> (int, int) {
    let max_w = minus_or_zero(area_width, 2);
    let min_w = if 20 < max_w { 20 } else { max_w };
    let max_h = minus_or_zero(area_height, 2);
    let min_h = if 7 < max_h { 7 } else { max_h };
    (clamped(area_width * 80 / 100, min_w, max_w), clamped(area_height * 30 / 100, min_h, max_h))
}

impl LoadingWidget {
    /// The size of the loading dialog in an area of the given size.
    pub fn popup_size(area_width: u16, area_height: u16) -> (r: (u16, u16))
        requires
            area_width * 80 <= u16::MAX,
            area_height * 30 <= u16::MAX,
        ensures
            (r.0 as int, r.1 as int) == loading_size_of(area_width as int, area_height as int),
    {
        let max_width = area_width.saturating_sub(2);
        let min_width = if 20 < max_width { 20 } else { max_width };
        let width = clamp_u16((area_width * 80) / 100, min_width, max_width);
        let max_height = area_height.saturating_sub(2);
        let min_height = if 7 < max_height { 7 } else { max_height };
        let height = clamp_u16((area_height * 30) / 100, min_height, max_height);
        (width, height)
    }
}


/// How a line of the image-details pane is shown.
#[derive(Clone, Copy, Debug, PartialEq, Eq, Structural)]
pub enum LineKind {
    /// Plain text: the image line, or the note that there is no report.
    Text,
    /// An analyzer's name and summary.
    Summary,
    /// A section title.
    Section,
    /// A labelled value: `text` is the label part, `value` the value.
    Item,
    /// An empty line.
    Blank,
}

/// A line of the image-details pane.
#[derive(Debug)]
pub struct DetailsLine {
    pub kind: LineKind,
    pub text: String,
    pub value: String,
}

/// A line as its kind, its text and its value.
pub open spec fn line_view(l: DetailsLine) -> (LineKind, Seq<char>, Seq<char>) {
    (l.kind, l.text@, l.value@)
}

pub open spec fn lines_view(v: Seq<DetailsLine>) -> Seq<(LineKind, Seq<char>, Seq<char>)> {
    v.map_values(|l: DetailsLine| line_view(l))
}

/// The line of a labelled value: `  label: ` and the value.
pub open spec fn item_line(it: AnalysisItem) -> (LineKind, Seq<char>, Seq<char>) {
    (LineKind::Item, "  "@ + it.label@ + ": "@, it.value@)
}

/// The lines of one section: its title with `:`, a line per item, then an
/// empty line.
pub open spec fn section_block(sec: AnalysisSection) -> Seq<(LineKind, Seq<char>, Seq<char>)> {
    seq![(LineKind::Section, sec.title@ + ":"@, Seq::<char>::empty())] + sec.items@.map_values(
        |it: AnalysisItem| item_line(it),
    ) + seq![(LineKind::Blank, Seq::<char>::empty(), Seq::<char>::empty())]
}

/// The lines of the sections of a result, one block after another.
pub open spec fn sections_block(secs: Seq<AnalysisSection>) -> Seq<(LineKind, Seq<char>, Seq<char>)>
    decreases secs.len(),
{
    if secs.len() == 0 {
        Seq::empty()
    } else {
        sections_block(secs.drop_last()) + section_block(secs.last())
    }
}

/// How many lines of `s` are summary lines.
pub open spec fn summary_count(s: Seq<(LineKind, Seq<char>, Seq<char>)>) -> nat
    decreases s.len(),
{
    if s.len() == 0 {
        0
    } else {
        summary_count(s.drop_last()) + if s.last().0 == LineKind::Summary {
            1nat
        } else {
            0nat
        }
    }
}

proof fn lemma_summary_count_append(a: Seq<(LineKind, Seq<char>, Seq<char>)>, b: Seq<(LineKind, Seq<char>, Seq<char>)>)
    ensures
        summary_count(a + b) == summary_count(a) + summary_count(b),
    decreases b.len(),
{
    if b.len() == 0 {
        assert(a + b =~= a);
    } else {
        assert((a + b).drop_last() =~= a + b.drop_last());
        lemma_summary_count_append(a, b.drop_last());
    }
}

proof fn lemma_no_summary_in_sections(secs: Seq<AnalysisSection>)
    ensures
        summary_count(sections_block(secs)) == 0,
    decreases secs.len(),
{
    if secs.len() > 0 {
        lemma_no_summary_in_sections(secs.drop_last());
        let sec = secs.last();
        let items = sec.items@.map_values(|it: AnalysisItem| item_line(it));
        lemma_no_summary_items(items);
        let head = seq![(LineKind::Section, sec.title@ + ":"@, Seq::<char>::empty())];
        let tail = seq![(LineKind::Blank, Seq::<char>::empty(), Seq::<char>::empty())];
        lemma_summary_count_append(head, items);
        lemma_summary_count_append(head + items, tail);
        lemma_summary_count_append(sections_block(secs.drop_last()), section_block(sec));
        assert(summary_count(head) == 0) by {
            assert(head.drop_last() =~= Seq::<(LineKind, Seq<char>, Seq<char>)>::empty());
            reveal_with_fuel(summary_count, 2);
        }
        assert(summary_count(tail) == 0) by {
            assert(tail.drop_last() =~= Seq::<(LineKind, Seq<char>, Seq<char>)>::empty());
            reveal_with_fuel(summary_count, 2);
        }
    }
}

proof fn lemma_no_summary_items(s: Seq<(LineKind, Seq<char>, Seq<char>)>)
    requires
        forall|i: int| 0 <= i < s.len() ==> (#[trigger] s[i]).0 == LineKind::Item,
    ensures
        summary_count(s) == 0,
    decreases s.len(),
{
    if s.len() > 0 {
        lemma_no_summary_items(s.drop_last());
    }
}

fn line(kind: LineKind, text: String, value: String) -> (r: DetailsLine)
    ensures
        line_view(r) == (kind, text@, value@),
{
    DetailsLine { kind, text, value }
}

impl ImageDetailsWidget {
    /// The lines for the sections of one analysis result.
    pub fn section_lines(sections: &Vec<AnalysisSection>) -> (r: Vec<DetailsLine>)
        ensures
            lines_view(r@) == sections_block(sections@),
    {
        let mut out: Vec<DetailsLine> = Vec::new();
        let mut i: usize = 0;
        while i < sections.len()
            invariant
                i <= sections@.len(),
                lines_view(out@) == sections_block(sections@.take(i as int)),
            decreases sections@.len() - i,
        {
            let sec = &sections[i];
            let ghost before = lines_view(out@);
            let mut title = string_chars(&sec.title);
            append_chars(&mut title, &str_to_chars(":"));
            out.push(line(LineKind::Section, vec_to_string(&title), String::new()));
            let ghost start = lines_view(out@);
            assert(start =~= before + seq![(LineKind::Section, sec.title@ + ":"@, Seq::<char>::empty())]);
            let mut j: usize = 0;
            while j < sec.items.len()
                invariant
                    i < sections@.len(),
                    sec == sections@[i as int],
                    j <= sec.items@.len(),
                    lines_view(out@) == start + sec.items@.take(j as int).map_values(
                        |it: AnalysisItem| item_line(it),
                    ),
                decreases sec.items@.len() - j,
            {
                let it = &sec.items[j];
                let mut label = str_to_chars("  ");
                append_chars(&mut label, &string_chars(&it.label));
                append_chars(&mut label, &str_to_chars(": "));
                let ghost prev = lines_view(out@);
                out.push(line(LineKind::Item, vec_to_string(&label), it.value.clone()));
                assert(lines_view(out@) =~= prev.push(item_line(*it)));
                assert(sec.items@.take(j + 1).map_values(|it: AnalysisItem| item_line(it)) =~= sec.items@.take(
                    j as int,
                ).map_values(|it: AnalysisItem| item_line(it)).push(item_line(sec.items@[j as int])));
                j = j + 1;
            }
            assert(sec.items@.take(j as int) =~= sec.items@);
            let ghost mid = lines_view(out@);
            out.push(line(LineKind::Blank, String::new(), String::new()));
            assert(lines_view(out@) =~= mid.push((LineKind::Blank, Seq::<char>::empty(), Seq::<char>::empty())));
            assert(sections@.take(i + 1).drop_last() =~= sections@.take(i as int));
            assert(lines_view(out@) =~= before + section_block(sections@[i as int]));
            i = i + 1;
        }
        assert(sections@.take(i as int) =~= sections@);
        out
    }

    /// The lines of the image-details pane: the image and, for each
    /// analysis result in turn, its name and summary followed by its
    /// sections; a note where there is no report.
    pub fn lines(state: &AppState) -> (r: Vec<DetailsLine>)
        ensures
            match state.report {
                None => lines_view(r@) == seq![
                    (LineKind::Text, "No analysis report available."@, Seq::<char>::empty()),
                ],
                Some(rep) => {
                    &&& lines_view(r@).len() >= 2
                    &&& lines_view(r@)[0] == (LineKind::Text, "Image: "@ + rep.image_ref@, Seq::<char>::empty())
                    &&& lines_view(r@)[1] == (LineKind::Blank, Seq::<char>::empty(), Seq::<char>::empty())
                    &&& summary_count(lines_view(r@)) == rep.results@.len()
                },
            },
    {
        match &state.report {
            None => {
                let mut out: Vec<DetailsLine> = Vec::new();
                out.push(line(LineKind::Text, vec_to_string(&str_to_chars("No analysis report available.")), String::new()));
                assert(lines_view(out@) =~= seq![
                    (LineKind::Text, "No analysis report available."@, Seq::<char>::empty()),
                ]);
                out
            },
            Some(report) => {
                let mut out: Vec<DetailsLine> = Vec::new();
                let mut head = str_to_chars("Image: ");
                append_chars(&mut head, &string_chars(&report.image_ref));
                out.push(line(LineKind::Text, vec_to_string(&head), String::new()));
                out.push(line(LineKind::Blank, String::new(), String::new()));
                proof {
                    let h = lines_view(out@);
                    assert(h.drop_last().drop_last() =~= Seq::<(LineKind, Seq<char>, Seq<char>)>::empty());
                    reveal_with_fuel(summary_count, 3);
                    assert(summary_count(h) == 0);
                }
                let mut i: usize = 0;
                while i < report.results.len()
                    invariant
                        i <= report.results@.len(),
                        lines_view(out@).len() >= 2,
                        lines_view(out@)[0] == (LineKind::Text, "Image: "@ + report.image_ref@, Seq::<char>::empty()),
                        lines_view(out@)[1] == (LineKind::Blank, Seq::<char>::empty(), Seq::<char>::empty()),
                        summary_count(lines_view(out@)) == i,
                    decreases report.results@.len() - i,
                {
                    let result = &report.results[i];
                    let mut text = str_to_chars("[");
                    append_chars(&mut text, &str_to_chars(result.analyzer_name()));
                    append_chars(&mut text, &str_to_chars("] "));
                    append_chars(&mut text, &string_chars(&result.summary()));
                    let ghost before = lines_view(out@);
                    out.push(line(LineKind::Summary, vec_to_string(&text), String::new()));
                    let ghost mid = lines_view(out@);
                    assert(mid.drop_last() =~= before);
                    let sections = result.details();
                    let mut block = ImageDetailsWidget::section_lines(&sections);
                    let ghost bv = lines_view(block@);
                    proof {
                        lemma_no_summary_in_sections(sections@);
                    }
                    out.append(&mut block);
                    proof {
                        assert(lines_view(out@) =~= mid + bv);
                        lemma_summary_count_append(mid, bv);
                        assert(lines_view(out@)[0] == mid[0]);
                        assert(lines_view(out@)[1] == mid[1]);
                    }
                    i = i + 1;
                }
                out
            },
        }
    }
}

} // verus!
