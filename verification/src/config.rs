//! User configuration: default modes, key bindings and the extract directory.
use vstd::prelude::*;
use crate::text::{
    chars_eq, chars_eq_ignore_case, eq_ignore_case, same_str, split_char, split_chars,
    str_to_chars, string_chars, trim_chars, trim_white,
};
use crate::utils::{expand_tilde, str_opt, tilde_expansion};

verus! {

/// Configuration of the extract feature.
#[derive(Debug, Clone)]
pub struct ExtractConfig {
    /// Default directory for the extract-to popup.
    pub default_directory: Option<String>,
}

/// The user's configuration.
#[derive(Debug, Clone)]
pub struct Config {
    /// Default compare mode: "natural" or "aggregated".
    pub compare_mode: Option<String>,
    /// Show file attributes by default.
    pub show_attributes: Option<bool>,
    /// Wrap the file tree by default.
    pub wrap_tree: Option<bool>,
    /// Default sort mode: "name" or "size".
    pub sort_mode: Option<String>,
    /// Per-action key-binding overrides: the action name and a key
    /// description such as "q", "ctrl+f", "tab", "space" or "up".
    pub keybindings: Vec<(String, String)>,
    /// Configuration for the extract feature.
    pub extract: ExtractConfig,
}

/// A key, as the explorer tells keys apart.
#[derive(Debug, Clone, Copy, PartialEq, Eq, Structural)]
pub enum KeyCode {
    Char(char),
    Tab,
    BackTab,
    Enter,
    Esc,
    Up,
    Down,
    Left,
    Right,
    PageUp,
    PageDown,
    Backspace,
    Other,
}

/// A key press: the key and whether Control was held.
#[derive(Debug, Clone, Copy, PartialEq, Eq, Structural)]
pub struct KeyInput {
    pub code: KeyCode,
    pub ctrl: bool,
}

impl Default for ExtractConfig {
    fn default() -> (r: Self)
        ensures
            r.default_directory is None,
    {
        ExtractConfig { default_directory: None }
    }
}

impl Default for Config {
    fn default() -> (r: Self)
        ensures
            r.compare_mode is None,
            r.show_attributes is None,
            r.wrap_tree is None,
            r.sort_mode is None,
            r.keybindings@.len() == 0,
            r.extract.default_directory is None,
    {
        Config {
            compare_mode: None,
            show_attributes: None,
            wrap_tree: None,
            sort_mode: None,
            keybindings: Vec::new(),
            extract: ExtractConfig::default(),
        }
    }
}

/// The key bindings as pairs of character sequences.
pub open spec fn bindings_view(v: Seq<(String, String)>) -> Seq<(Seq<char>, Seq<char>)> {
    v.map_values(|p: (String, String)| (p.0@, p.1@))
}

/// The binding configured for `action`: that of its first entry.
pub open spec fn binding_for(kb: Seq<(Seq<char>, Seq<char>)>, action: Seq<char>) -> Option<Seq<char>>
    decreases kb.len(),
{
    if kb.len() == 0 {
        None
    } else if kb[0].0 == action {
        Some(kb[0].1)
    } else {
        binding_for(kb.drop_first(), action)
    }
}

/// The name that a key description uses for `code` (none for keys that
/// descriptions cannot name).
pub open spec fn key_name(code: KeyCode) -> Option<Seq<char>> {
    match code {
        KeyCode::Char(c) => if c == ' ' {
            Some("space"@)
        } else {
            Some(seq![c])
        },
        KeyCode::Tab => Some("tab"@),
        KeyCode::Enter => Some("enter"@),
        KeyCode::Esc => Some("esc"@),
        KeyCode::Up => Some("up"@),
        KeyCode::Down => Some("down"@),
        KeyCode::Left => Some("left"@),
        KeyCode::Right => Some("right"@),
        KeyCode::PageUp => Some("pageup"@),
        KeyCode::PageDown => Some("pagedown"@),
        KeyCode::Backspace => Some("backspace"@),
        _ => None,
    }
}

/// `key` matches the description `binding`: its parts split on `+` and
/// trimmed, the last one names the key (ignoring ASCII case), and Control is
/// held exactly when some part is `ctrl`.
pub open spec fn binding_matches(key: KeyInput, binding: Seq<char>) -> bool {
    let parts = split_char(binding, '+').map_values(|p: Seq<char>| trim_white(p));
    let wants_ctrl = exists|i: int| 0 <= i < parts.len() && eq_ignore_case(#[trigger] parts[i], "ctrl"@);
    let key_part = parts.last();
    &&& key_name(key.code) matches Some(name) && eq_ignore_case(key_part, name)
    &&& key.ctrl == wants_ctrl
}

/// The built-in binding of each action.
pub open spec fn default_binding(action: Seq<char>, key: KeyInput) -> bool {
    let ctrl = key.ctrl;
    let c = key.code;
    if action == "quit"@ {
        c == KeyCode::Char('q') || (ctrl && c == KeyCode::Char('c'))
    } else if action == "filter"@ {
        ctrl && c == KeyCode::Char('f')
    } else if action == "collapse"@ {
        c == KeyCode::Enter || c == KeyCode::Char(' ')
    } else if action == "collapse_all"@ {
        ctrl && c == KeyCode::Char(' ')
    } else if action == "next_layer"@ || action == "next_tree_node"@ {
        c == KeyCode::Down || c == KeyCode::Char('j')
    } else if action == "prev_layer"@ || action == "prev_tree_node"@ {
        c == KeyCode::Up || c == KeyCode::Char('k')
    } else if action == "page_down"@ {
        c == KeyCode::PageDown || c == KeyCode::Char('d')
    } else if action == "page_up"@ {
        c == KeyCode::PageUp || c == KeyCode::Char('u')
    } else if action == "compare_aggregated"@ || action == "toggle_diff_added"@ {
        ctrl && c == KeyCode::Char('a')
    } else if action == "compare_natural"@ {
        ctrl && c == KeyCode::Char('l')
    } else if action == "toggle_attributes"@ {
        ctrl && c == KeyCode::Char('b')
    } else if action == "toggle_wrap"@ {
        ctrl && c == KeyCode::Char('p')
    } else if action == "toggle_sort"@ {
        ctrl && c == KeyCode::Char('o')
    } else if action == "toggle_diff_removed"@ {
        ctrl && c == KeyCode::Char('r')
    } else if action == "toggle_diff_modified"@ {
        ctrl && c == KeyCode::Char('m')
    } else if action == "toggle_diff_unmodified"@ {
        ctrl && c == KeyCode::Char('u')
    } else if action == "extract"@ {
        ctrl && c == KeyCode::Char('e')
    } else if action == "focus_next"@ {
        c == KeyCode::Tab
    } else if action == "focus_prev"@ {
        c == KeyCode::BackTab
    } else {
        false
    }
}

/// Whether `key` triggers `action` under the bindings `kb`.
pub open spec fn key_triggers(kb: Seq<(Seq<char>, Seq<char>)>, action: Seq<char>, key: KeyInput) -> bool {
    match binding_for(kb, action) {
        Some(b) => binding_matches(key, b),
        None => default_binding(action, key),
    }
}

fn key_name_chars(code: KeyCode) -> (r: Option<Vec<char>>)
    ensures
        match r {
            Some(v) => key_name(code) == Some(v@),
            None => key_name(code) is None,
        },
{
    match code {
        KeyCode::Char(c) => {
            if c == ' ' {
                Some(str_to_chars("space"))
            } else {
                let mut v: Vec<char> = Vec::new();
                v.push(c);
                assert(v@ =~= seq![c]);
                Some(v)
            }
        },
        KeyCode::Tab => Some(str_to_chars("tab")),
        KeyCode::Enter => Some(str_to_chars("enter")),
        KeyCode::Esc => Some(str_to_chars("esc")),
        KeyCode::Up => Some(str_to_chars("up")),
        KeyCode::Down => Some(str_to_chars("down")),
        KeyCode::Left => Some(str_to_chars("left")),
        KeyCode::Right => Some(str_to_chars("right")),
        KeyCode::PageUp => Some(str_to_chars("pageup")),
        KeyCode::PageDown => Some(str_to_chars("pagedown")),
        KeyCode::Backspace => Some(str_to_chars("backspace")),
        _ => None,
    }
}

/// Whether `key` matches the key description `binding`.
pub fn key_matches_binding(key: KeyInput, binding: &str) -> (r: bool)
    ensures
        r == binding_matches(key, binding@),
{
    let b = str_to_chars(binding);
    let raw = split_chars(&b, '+');
    let ghost spec_parts = split_char(b@, '+').map_values(|p: Seq<char>| trim_white(p));
    let ctrl_word = str_to_chars("ctrl");
    let mut wants_ctrl = false;
    let mut last: Vec<char> = Vec::new();
    let mut i: usize = 0;
    let n = raw.len();
    proof {
        assert(raw@.map_values(|v: Vec<char>| v@).len() == n);
    }
    while i < n
        invariant
            n == raw@.len(),
            n >= 1,
            raw@.map_values(|v: Vec<char>| v@) == split_char(b@, '+'),
            spec_parts == split_char(b@, '+').map_values(|p: Seq<char>| trim_white(p)),
            ctrl_word@ == "ctrl"@,
            i <= n,
            i > 0 ==> last@ == spec_parts[i - 1],
            wants_ctrl == exists|j: int| 0 <= j < i && eq_ignore_case(#[trigger] spec_parts[j], "ctrl"@),
        decreases n - i,
    {
        let t = trim_chars(&raw[i]);
        proof {
            assert(raw@.map_values(|v: Vec<char>| v@)[i as int] == raw@[i as int]@);
            assert(t@ == spec_parts[i as int]);
        }
        if chars_eq_ignore_case(&t, &ctrl_word) {
            wants_ctrl = true;
        }
        last = t;
        i = i + 1;
    }
    proof {
        assert(spec_parts.len() == n);
        assert(spec_parts.last() == spec_parts[n - 1]);
    }
    let code_match = match key_name_chars(key.code) {
        Some(name) => chars_eq_ignore_case(&last, &name),
        None => false,
    };
    code_match && key.ctrl == wants_ctrl
}

/// Whether `key` triggers `action` under the built-in bindings.
pub fn default_key_matches(action: &str, key: KeyInput) -> (r: bool)
    ensures
        r == default_binding(action@, key),
{
    let ctrl = key.ctrl;
    let c = key.code;
    if same_str(action, "quit") {
        c == KeyCode::Char('q') || (ctrl && c == KeyCode::Char('c'))
    } else if same_str(action, "filter") {
        ctrl && c == KeyCode::Char('f')
    } else if same_str(action, "collapse") {
        c == KeyCode::Enter || c == KeyCode::Char(' ')
    } else if same_str(action, "collapse_all") {
        ctrl && c == KeyCode::Char(' ')
    } else if same_str(action, "next_layer") || same_str(action, "next_tree_node") {
        c == KeyCode::Down || c == KeyCode::Char('j')
    } else if same_str(action, "prev_layer") || same_str(action, "prev_tree_node") {
        c == KeyCode::Up || c == KeyCode::Char('k')
    } else if same_str(action, "page_down") {
        c == KeyCode::PageDown || c == KeyCode::Char('d')
    } else if same_str(action, "page_up") {
        c == KeyCode::PageUp || c == KeyCode::Char('u')
    } else if same_str(action, "compare_aggregated") || same_str(action, "toggle_diff_added") {
        ctrl && c == KeyCode::Char('a')
    } else if same_str(action, "compare_natural") {
        ctrl && c == KeyCode::Char('l')
    } else if same_str(action, "toggle_attributes") {
        ctrl && c == KeyCode::Char('b')
    } else if same_str(action, "toggle_wrap") {
        ctrl && c == KeyCode::Char('p')
    } else if same_str(action, "toggle_sort") {
        ctrl && c == KeyCode::Char('o')
    } else if same_str(action, "toggle_diff_removed") {
        ctrl && c == KeyCode::Char('r')
    } else if same_str(action, "toggle_diff_modified") {
        ctrl && c == KeyCode::Char('m')
    } else if same_str(action, "toggle_diff_unmodified") {
        ctrl && c == KeyCode::Char('u')
    } else if same_str(action, "extract") {
        ctrl && c == KeyCode::Char('e')
    } else if same_str(action, "focus_next") {
        c == KeyCode::Tab
    } else if same_str(action, "focus_prev") {
        c == KeyCode::BackTab
    } else {
        false
    }
}

impl Config {
    /// The binding configured for `action`, if any.
    pub fn keybinding(&self, action: &str) -> (r: Option<&String>)
        ensures
            match r {
                Some(b) => binding_for(bindings_view(self.keybindings@), action@) == Some(b@),
                None => binding_for(bindings_view(self.keybindings@), action@) is None,
            },
    {
        let ghost kb = bindings_view(self.keybindings@);
        let a = str_to_chars(action);
        let mut i: usize = 0;
        proof {
            assert(kb.skip(0) =~= kb);
        }
        while i < self.keybindings.len()
            invariant
                kb == bindings_view(self.keybindings@),
                a@ == action@,
                i <= kb.len(),
                binding_for(kb, action@) == binding_for(kb.skip(i as int), action@),
            decreases kb.len() - i,
        {
            let k = string_chars(&self.keybindings[i].0);
            proof {
                assert(kb.skip(i as int)[0] == kb[i as int]);
                assert(kb.skip(i as int).drop_first() =~= kb.skip(i + 1));
            }
            if chars_eq(&k, &a) {
                return Some(&self.keybindings[i].1);
            }
            i = i + 1;
        }
        None
    }

    /// Binds `action` to the key description `binding`, replacing its
    /// earlier binding.
    pub fn set_keybinding(&mut self, action: &str, binding: &str)
        ensures
            binding_for(bindings_view(final(self).keybindings@), action@) == Some(binding@),
            forall|other: Seq<char>|
                other != action@ ==> binding_for(bindings_view(final(self).keybindings@), other)
                    == binding_for(bindings_view(old(self).keybindings@), other),
            final(self).compare_mode == old(self).compare_mode,
            final(self).show_attributes == old(self).show_attributes,
            final(self).wrap_tree == old(self).wrap_tree,
            final(self).sort_mode == old(self).sort_mode,
            final(self).extract == old(self).extract,
    {
        let ghost kb = bindings_view(self.keybindings@);
        let a = str_to_chars(action);
        let mut i: usize = 0;
        while i < self.keybindings.len()
            invariant
                kb == bindings_view(self.keybindings@),
                self.keybindings@ == old(self).keybindings@,
                self.compare_mode == old(self).compare_mode,
                self.show_attributes == old(self).show_attributes,
                self.wrap_tree == old(self).wrap_tree,
                self.sort_mode == old(self).sort_mode,
                self.extract == old(self).extract,
                a@ == action@,
                i <= kb.len(),
                forall|j: int| 0 <= j < i ==> (#[trigger] kb[j]).0 != action@,
            ensures
                i <= kb.len(),
                forall|j: int| 0 <= j < i ==> (#[trigger] kb[j]).0 != action@,
                i < kb.len() ==> kb[i as int].0 == action@,
            decreases kb.len() - i,
        {
            let k = string_chars(&self.keybindings[i].0);
            if chars_eq(&k, &a) {
                break;
            }
            i = i + 1;
        }
        let ghost pos = i as int;
        let entry = (action.to_owned(), binding.to_owned());
        if i < self.keybindings.len() {
            self.keybindings.set(i, entry);
        } else {
            self.keybindings.push(entry);
        }
        proof {
            let nk = bindings_view(self.keybindings@);
            assert(nk.len() >= pos + 1);
            assert(nk[pos] == (action@, binding@));
            assert forall|j: int| 0 <= j < pos implies #[trigger] nk[j] == kb[j] by {}
            assert forall|j: int| 0 <= j < pos implies (#[trigger] nk[j]).0 != action@ by {
                assert(nk[j] == kb[j]);
            }
            lemma_binding_for_skip(nk, pos, action@);
            assert(nk.skip(pos)[0] == nk[pos]);
            assert forall|other: Seq<char>| other != action@ implies binding_for(nk, other)
                == binding_for(kb, other) by {
                lemma_binding_for_prefix(nk, kb, pos, other);
            }
        }
    }

    /// Whether `key` triggers `action`: the configured binding when there
    /// is one, else the built-in one.
    pub fn key_matches(&self, action: &str, key: KeyInput) -> (r: bool)
        ensures
            r == key_triggers(bindings_view(self.keybindings@), action@, key),
    {
        match self.keybinding(action) {
            Some(binding) => key_matches_binding(key, binding.as_str()),
            None => default_key_matches(action, key),
        }
    }

    /// The configured default directory for extractions, with a leading `~`
    /// expanded against `home` (`None` when none is configured, or when it
    /// needs a home directory and `home` is `None`).
    pub fn extract_default_directory(&self, home: Option<&str>) -> (r: Option<String>)
        ensures
            match self.extract.default_directory {
                None => r is None,
                Some(d) => match r {
                    Some(p) => tilde_expansion(d@, str_opt(home)) == Some(p@),
                    None => tilde_expansion(d@, str_opt(home)) is None,
                },
            },
    {
        match &self.extract.default_directory {
            None => None,
            Some(d) => expand_tilde(d.as_str(), home),
        }
    }
}

/// Looking a binding up skips the entries before its first one.
proof fn lemma_binding_for_skip(kb: Seq<(Seq<char>, Seq<char>)>, pos: int, a: Seq<char>)
    requires
        0 <= pos <= kb.len(),
        forall|j: int| 0 <= j < pos ==> (#[trigger] kb[j]).0 != a,
    ensures
        binding_for(kb, a) == binding_for(kb.skip(pos), a),
    decreases pos,
{
    if pos > 0 {
        assert(kb[0].0 != a);
        assert forall|j: int| 0 <= j < pos - 1 implies (#[trigger] kb.drop_first()[j]).0 != a by {
            assert(kb.drop_first()[j] == kb[j + 1]);
        }
        lemma_binding_for_skip(kb.drop_first(), pos - 1, a);
        assert(kb.drop_first().skip(pos - 1) =~= kb.skip(pos));
    } else {
        assert(kb.skip(0) =~= kb);
    }
}

/// Two binding lists that agree everywhere but at `pos`, where both name
/// `action`, agree on every other action.
proof fn lemma_binding_for_prefix(
    nk: Seq<(Seq<char>, Seq<char>)>,
    kb: Seq<(Seq<char>, Seq<char>)>,
    pos: int,
    other: Seq<char>,
)
    requires
        0 <= pos <= kb.len(),
        pos < nk.len(),
        forall|j: int| 0 <= j < pos ==> #[trigger] nk[j] == kb[j],
        nk[pos].0 != other,
        pos < kb.len() ==> kb[pos].0 == nk[pos].0,
        nk.len() == if pos < kb.len() { kb.len() } else { kb.len() + 1 },
        forall|j: int| pos < j < kb.len() ==> #[trigger] nk[j] == kb[j],
    ensures
        binding_for(nk, other) == binding_for(kb, other),
    decreases pos,
{
    if pos == 0 {
        assert(binding_for(nk, other) == binding_for(nk.drop_first(), other));
        if pos < kb.len() {
            assert(nk.drop_first() =~= kb.drop_first());
        } else {
            assert(nk.drop_first().len() == 0);
        }
    } else {
        lemma_binding_for_prefix(nk.drop_first(), kb.drop_first(), pos - 1, other);
        assert(nk[0] == kb[0]);
    }
}


/// A configured binding replaces the built-in one: once an action has a
/// binding, exactly the keys that match that binding trigger it; an action
/// without one keeps its built-in keys.
pub proof fn law_binding_overrides_default(kb: Seq<(Seq<char>, Seq<char>)>, action: Seq<char>, key: KeyInput)
    ensures
        binding_for(kb, action) matches Some(b) ==> key_triggers(kb, action, key) == binding_matches(key, b),
        binding_for(kb, action) is None ==> key_triggers(kb, action, key) == default_binding(action, key),
{
}

} // verus!
