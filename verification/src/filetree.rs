//! The file tree of one layer (or of a stack of layers).
//!
//! A tree is a root node plus a set of entries keyed by their path components.
//! The entries are kept in tree order (see [`path_lt`]), which is the order of a
//! depth-first walk that lists a directory before its contents and siblings by
//! name; the set of keys is closed under taking prefixes, so every entry's
//! directories are entries too.
use vstd::prelude::*;
use crate::paths::{
    PathKey, components_clean, is_prefix, is_strict_prefix, join_components, join_path, key_of,
    lemma_join_injective, lemma_path_lt_asym, lemma_path_lt_irrefl, lemma_path_lt_total, lemma_path_lt_trans,
    lemma_prefix_path_lt, path_eq, path_less, path_lt, split_components, split_path, split_acc,
};
use crate::text::{str_to_chars, trim_start_char, trim_start_matches_char, vec_to_string};

verus! {

/// How a node differs from the tree it was compared against.
#[derive(Debug, Clone, Copy, PartialEq, Eq, Structural)]
pub enum DiffType {
    Unmodified,
    Added,
    Removed,
    Modified,
}

impl Default for DiffType {
    fn default() -> (r: Self)
        ensures
            r == DiffType::Unmodified,
    {
        DiffType::Unmodified
    }
}

/// The kind of a tar entry.
#[derive(Debug, Clone, Copy, PartialEq, Eq, Structural)]
pub enum TarEntryType {
    Regular,
    Directory,
    Symlink,
    Hardlink,
    Other,
}

/// The order in which a tree's entries are listed.
#[derive(Debug, Clone, Copy, PartialEq, Eq, Structural)]
pub enum SortMode {
    Name,
    Size,
}

impl Default for SortMode {
    fn default() -> (r: Self)
        ensures
            r == SortMode::Name,
    {
        SortMode::Name
    }
}

/// Metadata (and, for regular files, the content) of one file.
#[derive(Debug)]
pub struct FileInfo {
    pub size: u64,
    pub mode: u32,
    pub uid: u32,
    pub gid: u32,
    pub entry_type: TarEntryType,
    pub linkname: String,
    pub content_hash: u64,
    pub content: Vec<u8>,
}

/// The mathematical value of a [`FileInfo`].
pub struct InfoView {
    pub size: u64,
    pub mode: u32,
    pub uid: u32,
    pub gid: u32,
    pub entry_type: TarEntryType,
    pub linkname: Seq<char>,
    pub content_hash: u64,
    pub content: Seq<u8>,
}

impl View for FileInfo {
    type V = InfoView;

    open spec fn view(&self) -> InfoView {
        InfoView {
            size: self.size,
            mode: self.mode,
            uid: self.uid,
            gid: self.gid,
            entry_type: self.entry_type,
            linkname: self.linkname@,
            content_hash: self.content_hash,
            content: self.content@,
        }
    }
}

/// The metadata of a file about which nothing is known.
pub open spec fn default_info() -> InfoView {
    InfoView {
        size: 0,
        mode: 0,
        uid: 0,
        gid: 0,
        entry_type: TarEntryType::Other,
        linkname: Seq::empty(),
        content_hash: 0,
        content: Seq::empty(),
    }
}

/// The metadata given to a directory that a path implies but no entry describes.
pub open spec fn implied_dir_info() -> InfoView {
    InfoView { entry_type: TarEntryType::Directory, ..default_info() }
}

impl Default for FileInfo {
    fn default() -> (r: Self)
        ensures
            r@ == default_info(),
    {
        FileInfo {
            size: 0,
            mode: 0,
            uid: 0,
            gid: 0,
            entry_type: TarEntryType::Other,
            linkname: String::new(),
            content_hash: 0,
            content: Vec::new(),
        }
    }
}

impl Clone for FileInfo {
    fn clone(&self) -> (r: Self)
        ensures
            r@ == self@,
    {
        let mut content: Vec<u8> = Vec::new();
        let mut i: usize = 0;
        while i < self.content.len()
            invariant
                i <= self.content@.len(),
                content@ == self.content@.take(i as int),
            decreases self.content@.len() - i,
        {
            content.push(self.content[i]);
            assert(self.content@.take(i + 1) =~= self.content@.take(i as int).push(
                self.content@[i as int],
            ));
            i = i + 1;
        }
        assert(self.content@.take(self.content@.len() as int) =~= self.content@);
        FileInfo {
            size: self.size,
            mode: self.mode,
            uid: self.uid,
            gid: self.gid,
            entry_type: self.entry_type,
            linkname: self.linkname.clone(),
            content_hash: self.content_hash,
            content,
        }
    }
}

impl FileInfo {
    /// Metadata for a directory that is implied by a path.
    pub fn implied_dir() -> (r: Self)
        ensures
            r@ == implied_dir_info(),
    {
        FileInfo { entry_type: TarEntryType::Directory, ..FileInfo::default() }
    }
}

/// One node of a file tree.
#[derive(Debug)]
pub struct FileNode {
    pub path: String,
    pub info: FileInfo,
    pub diff_type: DiffType,
    pub collapsed: bool,
}

/// The mathematical value of a [`FileNode`].
pub struct NodeView {
    pub path: Seq<char>,
    pub info: InfoView,
    pub diff_type: DiffType,
    pub collapsed: bool,
}

impl View for FileNode {
    type V = NodeView;

    open spec fn view(&self) -> NodeView {
        NodeView {
            path: self.path@,
            info: self.info@,
            diff_type: self.diff_type,
            collapsed: self.collapsed,
        }
    }
}

/// A fresh node: unmodified and expanded.
pub open spec fn fresh_node(path: Seq<char>, info: InfoView) -> NodeView {
    NodeView { path, info, diff_type: DiffType::Unmodified, collapsed: false }
}

impl Clone for FileNode {
    fn clone(&self) -> (r: Self)
        ensures
            r@ == self@,
    {
        FileNode {
            path: self.path.clone(),
            info: self.info.clone(),
            diff_type: self.diff_type,
            collapsed: self.collapsed,
        }
    }
}

impl FileNode {
    pub fn new(path: String, info: FileInfo) -> (r: Self)
        ensures
            r@ == fresh_node(path@, info@),
    {
        FileNode { path, info, diff_type: DiffType::Unmodified, collapsed: false }
    }
}

/// One non-root entry of a tree: its path components and its node.
pub(crate) struct TreeEntry {
    pub(crate) parts: Vec<Vec<char>>,
    pub(crate) node: FileNode,
}

/// A pair of a path key and the node stored there.
pub type KeyedNode = (PathKey, NodeView);

/// Whether key `k` occurs in the association list `s`.
pub open spec fn has_key(s: Seq<KeyedNode>, k: PathKey) -> bool {
    exists|i: int| 0 <= i < s.len() && (#[trigger] s[i]).0 == k
}

/// A position where key `k` occurs in `s` (meaningful when it occurs).
pub open spec fn key_index(s: Seq<KeyedNode>, k: PathKey) -> int {
    choose|i: int| 0 <= i < s.len() && (#[trigger] s[i]).0 == k
}

/// The map that an association list with distinct keys stands for.
pub open spec fn alist_map(s: Seq<KeyedNode>) -> Map<PathKey, NodeView> {
    Map::new(|k: PathKey| has_key(s, k), |k: PathKey| s[key_index(s, k)].1)
}

/// Keys strictly increase in tree order.
pub open spec fn keys_sorted(s: Seq<KeyedNode>) -> bool {
    forall|i: int, j: int| 0 <= i < j < s.len() ==> path_lt(#[trigger] s[i].0, #[trigger] s[j].0)
}

/// Every key is a non-empty path without `/` inside a component.
pub open spec fn keys_clean(s: Seq<KeyedNode>) -> bool {
    forall|i: int| 0 <= i < s.len() ==> (#[trigger] s[i]).0.len() >= 1 && components_clean(s[i].0)
}

/// Every directory above an entry is an entry too.
pub open spec fn prefix_closed(m: Map<PathKey, NodeView>) -> bool {
    forall|k: PathKey, n: int|
        #![trigger m.contains_key(k), k.take(n)]
        m.contains_key(k) && 1 <= n < k.len() ==> m.contains_key(k.take(n))
}

/// Well-formed association list of a tree.
pub open spec fn alist_wf(s: Seq<KeyedNode>) -> bool {
    keys_sorted(s) && keys_clean(s) && prefix_closed(alist_map(s))
}

pub proof fn lemma_sorted_unique(s: Seq<KeyedNode>, i: int, j: int)
    requires
        keys_sorted(s),
        0 <= i < s.len(),
        0 <= j < s.len(),
        s[i].0 == s[j].0,
    ensures
        i == j,
{
    if i < j {
        lemma_path_lt_irrefl(s[i].0);
    } else if j < i {
        lemma_path_lt_irrefl(s[i].0);
    }
}

/// In a sorted list, the map sends each key to the node stored beside it.
pub proof fn lemma_alist_at(s: Seq<KeyedNode>, i: int)
    requires
        keys_sorted(s),
        0 <= i < s.len(),
    ensures
        alist_map(s).contains_key(s[i].0),
        alist_map(s)[s[i].0] == s[i].1,
{
    let k = s[i].0;
    assert(has_key(s, k));
    let j = key_index(s, k);
    assert(0 <= j < s.len() && s[j].0 == k);
    lemma_sorted_unique(s, i, j);
}

/// Dropping the last entry of a sorted list removes exactly its key.
proof fn lemma_drop_last_keys(s: Seq<KeyedNode>)
    requires
        keys_sorted(s),
        s.len() > 0,
    ensures
        forall|k: PathKey| #[trigger] has_key(s.drop_last(), k) <==> has_key(s, k) && k != s.last().0,
{
    let d = s.drop_last();
    let n = s.len() - 1;
    assert forall|k: PathKey| #[trigger] has_key(d, k) <==> has_key(s, k) && k != s.last().0 by {
        if has_key(d, k) {
            let t = choose|t: int| 0 <= t < d.len() && (#[trigger] d[t]).0 == k;
            assert(s[t].0 == k);
            if k == s.last().0 {
                lemma_sorted_unique(s, t, n);
            }
        }
        if has_key(s, k) && k != s.last().0 {
            let t = choose|t: int| 0 <= t < s.len() && (#[trigger] s[t]).0 == k;
            assert(d[t].0 == k);
        }
    }
}

/// Two sorted association lists for the same map are the same list.
#[verifier::spinoff_prover]
#[verifier::rlimit(40)]
pub proof fn lemma_sorted_alist_unique(s1: Seq<KeyedNode>, s2: Seq<KeyedNode>)
    requires
        keys_sorted(s1),
        keys_sorted(s2),
        alist_map(s1) == alist_map(s2),
    ensures
        s1 == s2,
    decreases s1.len(),
{
    if s1.len() == 0 {
        if s2.len() > 0 {
            lemma_alist_at(s2, 0);
            assert(!has_key(s1, s2[0].0));
        }
        assert(s1 =~= s2);
    } else if s2.len() == 0 {
        lemma_alist_at(s1, 0);
        assert(!has_key(s2, s1[0].0));
    } else {
        let n1 = s1.len() - 1;
        let n2 = s2.len() - 1;
        let a = s1[n1];
        let b = s2[n2];
        lemma_alist_at(s1, n1);
        lemma_alist_at(s2, n2);
        let j = key_index(s2, a.0);
        let i = key_index(s1, b.0);
        assert(has_key(s2, a.0));
        assert(has_key(s1, b.0));
        if a.0 != b.0 {
            assert(j < n2);
            assert(path_lt(s2[j].0, s2[n2].0));
            assert(i < n1);
            assert(path_lt(s1[i].0, s1[n1].0));
            lemma_path_lt_asym(a.0, b.0);
        }
        assert(a == b);
        let d1 = s1.drop_last();
        let d2 = s2.drop_last();
        lemma_drop_last_keys(s1);
        lemma_drop_last_keys(s2);
        assert forall|k: PathKey| #[trigger] alist_map(d1).contains_key(k) implies alist_map(d1)[k]
            == alist_map(d2)[k] by {
            assert(has_key(d1, k));
            assert(alist_map(s1).contains_key(k));
            assert(alist_map(s2).contains_key(k));
            assert(has_key(d2, k));
            let t1 = key_index(d1, k);
            let t2 = key_index(d2, k);
            lemma_alist_at(s1, t1);
            lemma_alist_at(s2, t2);
            assert(s1[t1] == d1[t1]);
            assert(s2[t2] == d2[t2]);
        }
        assert forall|k: PathKey| #[trigger] alist_map(d1).contains_key(k) <==> alist_map(d2).contains_key(k) by {
            if has_key(d1, k) {
                assert(alist_map(s1).contains_key(k));
                assert(alist_map(s2).contains_key(k));
            }
            if has_key(d2, k) {
                assert(alist_map(s2).contains_key(k));
                assert(alist_map(s1).contains_key(k));
            }
        }
        assert(alist_map(d1) =~= alist_map(d2));
        lemma_sorted_alist_unique(d1, d2);
        assert(s1 =~= d1.push(a));
        assert(s2 =~= d2.push(b));
    }
}

/// The sorted association list of a tree's entries.
pub open spec fn canonical_alist(m: Map<PathKey, NodeView>) -> Seq<KeyedNode> {
    choose|s: Seq<KeyedNode>| keys_sorted(s) && alist_map(s) == m
}

/// The keys of `m` in tree order.
pub open spec fn canonical_keys(m: Map<PathKey, NodeView>) -> Seq<PathKey> {
    canonical_alist(m).map_values(|e: KeyedNode| e.0)
}

/// The sum of the sizes of the entries of `m` at or below `k`.
pub open spec fn map_subtree(m: Map<PathKey, NodeView>, k: PathKey) -> int {
    sum_below(canonical_alist(m), k)
}

pub proof fn lemma_map_subtree_nonneg(m: Map<PathKey, NodeView>, k: PathKey)
    ensures
        map_subtree(m, k) >= 0,
{
    lemma_sum_below_nonneg(canonical_alist(m), k);
}

/// Inserting a new key at its sorted place keeps the list sorted and adds the key to the map.
pub proof fn lemma_alist_insert(s: Seq<KeyedNode>, p: int, e: KeyedNode)
    requires
        keys_sorted(s),
        0 <= p <= s.len(),
        forall|j: int| 0 <= j < p ==> path_lt(#[trigger] s[j].0, e.0),
        forall|j: int| p <= j < s.len() ==> path_lt(e.0, #[trigger] s[j].0),
    ensures
        keys_sorted(s.insert(p, e)),
        alist_map(s.insert(p, e)) == alist_map(s).insert(e.0, e.1),
{
    let t = s.insert(p, e);
    assert forall|i: int, j: int| 0 <= i < j < t.len() implies path_lt(
        #[trigger] t[i].0,
        #[trigger] t[j].0,
    ) by {
        if i < p && j < p {
        } else if i < p && j == p {
        } else if i < p {
            assert(t[j] == s[j - 1]);
        } else if i == p {
            assert(t[j] == s[j - 1]);
        } else {
            assert(t[i] == s[i - 1]);
            assert(t[j] == s[j - 1]);
        }
    }
    let m1 = alist_map(t);
    let m2 = alist_map(s).insert(e.0, e.1);
    assert forall|k: PathKey| m1.contains_key(k) <==> m2.contains_key(k) by {
        if has_key(t, k) {
            let i = choose|i: int| 0 <= i < t.len() && (#[trigger] t[i]).0 == k;
            if i < p {
                assert(s[i].0 == k);
            } else if i > p {
                assert(s[i - 1].0 == k);
            }
        }
        if has_key(s, k) {
            let i = choose|i: int| 0 <= i < s.len() && (#[trigger] s[i]).0 == k;
            if i < p {
                assert(t[i].0 == k);
            } else {
                assert(t[i + 1].0 == k);
            }
        }
        if k == e.0 {
            assert(t[p].0 == k);
        }
    }
    assert forall|k: PathKey| m1.contains_key(k) implies m1[k] == m2[k] by {
        let i = choose|i: int| 0 <= i < t.len() && (#[trigger] t[i]).0 == k;
        lemma_alist_at(t, i);
        if i < p {
            lemma_alist_at(s, i);
            lemma_path_lt_irrefl(e.0);
        } else if i > p {
            lemma_alist_at(s, i - 1);
            lemma_path_lt_irrefl(e.0);
        }
    }
    assert(m1 =~= m2);
}

/// Replacing the node at a position updates that key in the map.
pub proof fn lemma_alist_update(s: Seq<KeyedNode>, p: int, v: NodeView)
    requires
        keys_sorted(s),
        0 <= p < s.len(),
    ensures
        keys_sorted(s.update(p, (s[p].0, v))),
        alist_map(s.update(p, (s[p].0, v))) == alist_map(s).insert(s[p].0, v),
{
    let t = s.update(p, (s[p].0, v));
    assert forall|i: int, j: int| 0 <= i < j < t.len() implies path_lt(
        #[trigger] t[i].0,
        #[trigger] t[j].0,
    ) by {
        assert(t[i].0 == s[i].0);
        assert(t[j].0 == s[j].0);
    }
    let m1 = alist_map(t);
    let m2 = alist_map(s).insert(s[p].0, v);
    assert forall|k: PathKey| m1.contains_key(k) <==> m2.contains_key(k) by {
        if has_key(t, k) {
            let i = choose|i: int| 0 <= i < t.len() && (#[trigger] t[i]).0 == k;
            assert(s[i].0 == k);
        }
        if has_key(s, k) {
            let i = choose|i: int| 0 <= i < s.len() && (#[trigger] s[i]).0 == k;
            assert(t[i].0 == k);
        }
        if k == s[p].0 {
            assert(t[p].0 == k);
        }
    }
    assert forall|k: PathKey| m1.contains_key(k) implies m1[k] == m2[k] by {
        let i = choose|i: int| 0 <= i < t.len() && (#[trigger] t[i]).0 == k;
        lemma_alist_at(t, i);
        if i != p {
            lemma_alist_at(s, i);
            assert(s[i].0 != s[p].0) by {
                if s[i].0 == s[p].0 {
                    lemma_sorted_unique(s, i, p);
                }
            }
        }
    }
    assert(m1 =~= m2);
}

/// Appending a key larger than all others keeps the list sorted and adds the key.
pub proof fn lemma_alist_push(s: Seq<KeyedNode>, e: KeyedNode)
    requires
        keys_sorted(s),
        forall|j: int| 0 <= j < s.len() ==> path_lt(#[trigger] s[j].0, e.0),
    ensures
        keys_sorted(s.push(e)),
        alist_map(s.push(e)) == alist_map(s).insert(e.0, e.1),
{
    assert(s.push(e) =~= s.insert(s.len() as int, e));
    lemma_alist_insert(s, s.len() as int, e);
}

pub proof fn lemma_alist_empty()
    ensures
        alist_map(Seq::<KeyedNode>::empty()) == Map::<PathKey, NodeView>::empty(),
{
    assert(alist_map(Seq::<KeyedNode>::empty()) =~= Map::<PathKey, NodeView>::empty());
}

impl TreeEntry {
    pub(crate) open spec fn kv(&self) -> KeyedNode {
        (key_of(self.parts@), self.node@)
    }
}

/// The association list of a sequence of entries.
pub(crate) open spec fn entries_kv(v: Seq<TreeEntry>) -> Seq<KeyedNode> {
    v.map_values(|e: TreeEntry| e.kv())
}

/// The file tree of a layer or of a stack of layers.
pub struct FileTree {
    root: FileNode,
    entries: Vec<TreeEntry>,
}

/// The path of an implied directory: its components joined with `/`.
pub open spec fn implied_dir_node(k: PathKey) -> NodeView {
    fresh_node(join_path(k), implied_dir_info())
}

/// What `add_path` makes of the entries `m` when it adds key `k` with node `leaf`:
/// everything strictly below `k` goes, missing directories above `k` are implied,
/// and `k` holds the new node.
pub open spec fn add_path_map(m: Map<PathKey, NodeView>, k: PathKey, leaf: NodeView) -> Map<
    PathKey,
    NodeView,
> {
    Map::new(
        |q: PathKey|
            (m.contains_key(q) && !is_strict_prefix(k, q)) || (q.len() >= 1 && is_prefix(q, k)),
        |q: PathKey|
            if q == k {
                leaf
            } else if m.contains_key(q) {
                m[q]
            } else {
                implied_dir_node(q)
            },
    )
}

/// What `get_node` finds for a path string in a tree with the given root and entries.
pub open spec fn lookup(root: NodeView, nodes: Map<PathKey, NodeView>, path: Seq<char>) -> Option<NodeView> {
    let t = trim_start_char(path, '/');
    if t.len() == 0 {
        Some(root)
    } else if nodes.contains_key(split_path(t)) {
        Some(nodes[split_path(t)])
    } else {
        None
    }
}

/// `m` with the directories implied by the first `i - 1` proper prefixes of `k` filled in.
pub open spec fn fill_dirs(m: Map<PathKey, NodeView>, k: PathKey, i: int) -> Map<PathKey, NodeView> {
    Map::new(
        |q: PathKey| m.contains_key(q) || (1 <= q.len() < i && is_prefix(q, k)),
        |q: PathKey|
            if m.contains_key(q) {
                m[q]
            } else {
                implied_dir_node(q)
            },
    )
}

/// `k` is an entry of `m` with nothing below it.
pub open spec fn is_leaf(m: Map<PathKey, NodeView>, k: PathKey) -> bool {
    m.contains_key(k) && forall|q: PathKey| #[trigger] m.contains_key(q) ==> !is_strict_prefix(k, q)
}

/// The sum of the sizes of the entries of `s` at or below `k`.
pub open spec fn sum_below(s: Seq<KeyedNode>, k: PathKey) -> int
    decreases s.len(),
{
    if s.len() == 0 {
        0
    } else {
        sum_below(s.drop_last(), k) + if is_prefix(k, s.last().0) {
            s.last().1.info.size as int
        } else {
            0
        }
    }
}

pub proof fn lemma_sum_below_nonneg(s: Seq<KeyedNode>, k: PathKey)
    ensures
        sum_below(s, k) >= 0,
    decreases s.len(),
{
    if s.len() > 0 {
        lemma_sum_below_nonneg(s.drop_last(), k);
    }
}

/// Summing below `k` never exceeds summing everything.
pub proof fn lemma_sum_below_le(s: Seq<KeyedNode>, k: PathKey)
    ensures
        0 <= sum_below(s, k) <= sum_below(s, Seq::empty()),
    decreases s.len(),
{
    if s.len() > 0 {
        lemma_sum_below_le(s.drop_last(), k);
        assert(s.last().0.take(0) =~= Seq::<Seq<char>>::empty());
    }
}

/// A prefix of the list sums to no more than the whole list.
pub proof fn lemma_sum_below_take_le(s: Seq<KeyedNode>, k: PathKey, n: int)
    requires
        0 <= n <= s.len(),
    ensures
        sum_below(s.take(n), k) <= sum_below(s, k),
    decreases s.len() - n,
{
    if n < s.len() {
        lemma_sum_below_take_le(s, k, n + 1);
        assert(s.take(n + 1).drop_last() =~= s.take(n));
    } else {
        assert(s.take(n) =~= s);
    }
}

/// If only the entry at `i` lies at or below `k`, the sum is its size.
pub proof fn lemma_sum_below_single(s: Seq<KeyedNode>, k: PathKey, i: int)
    requires
        keys_sorted(s),
        0 <= i < s.len(),
        s[i].0 == k,
        forall|j: int| 0 <= j < s.len() && j != i ==> !is_strict_prefix(k, #[trigger] s[j].0),
    ensures
        sum_below(s, k) == s[i].1.info.size,
    decreases s.len(),
{
    assert(k.take(k.len() as int) =~= k);
    if i == s.len() - 1 {
        assert forall|j: int| 0 <= j < s.drop_last().len() implies !is_prefix(
            k,
            #[trigger] s.drop_last()[j].0,
        ) by {
            assert(s.drop_last()[j] == s[j]);
            if is_prefix(k, s[j].0) {
                if k.len() == s[j].0.len() {
                    assert(k =~= s[j].0);
                    lemma_sorted_unique(s, i, j);
                }
            }
        }
        lemma_sum_below_none(s.drop_last(), k);
    } else {
        assert forall|j: int| 0 <= j < s.drop_last().len() && j != i implies !is_strict_prefix(
            k,
            #[trigger] s.drop_last()[j].0,
        ) by {
            assert(s.drop_last()[j] == s[j]);
        }
        lemma_sum_below_single(s.drop_last(), k, i);
        let l = s.last().0;
        assert(!is_prefix(k, l)) by {
            if is_prefix(k, l) {
                if k.len() == l.len() {
                    assert(k =~= l);
                    lemma_sorted_unique(s, i, s.len() - 1);
                }
            }
        }
    }
}

/// If nothing lies at or below `k`, the sum is zero.
pub proof fn lemma_sum_below_none(s: Seq<KeyedNode>, k: PathKey)
    requires
        forall|j: int| 0 <= j < s.len() ==> !is_prefix(k, #[trigger] s[j].0),
    ensures
        sum_below(s, k) == 0,
    decreases s.len(),
{
    if s.len() > 0 {
        assert forall|j: int| 0 <= j < s.drop_last().len() implies !is_prefix(
            k,
            #[trigger] s.drop_last()[j].0,
        ) by {
            assert(s.drop_last()[j] == s[j]);
        }
        lemma_sum_below_none(s.drop_last(), k);
        assert(s.last() == s[s.len() - 1]);
    }
}

/// The name prefix that marks a whiteout: `.wh.`.
pub open spec fn whiteout_prefix() -> Seq<char> {
    seq!['.', 'w', 'h', '.']
}

/// The name of an opaque whiteout: `.wh..wh..opq`.
pub open spec fn opaque_marker() -> Seq<char> {
    seq!['.', 'w', 'h', '.', '.', 'w', 'h', '.', '.', 'o', 'p', 'q']
}

fn whiteout_prefix_chars() -> (r: Vec<char>)
    ensures
        r@ == whiteout_prefix(),
{
    let r = vec!['.', 'w', 'h', '.'];
    assert(r@ =~= whiteout_prefix());
    r
}

pub(crate) fn opaque_marker_chars() -> (r: Vec<char>)
    ensures
        r@ == opaque_marker(),
{
    let r = vec!['.', 'w', 'h', '.', '.', 'w', 'h', '.', '.', 'o', 'p', 'q'];
    assert(r@ =~= opaque_marker());
    r
}

/// The last component of `k` starts with `.wh.`.
pub open spec fn is_whiteout_key(k: PathKey) -> bool {
    k.len() >= 1 && crate::text::has_prefix(k.last(), whiteout_prefix())
}

/// The last component of `k` is the opaque marker.
pub open spec fn is_opaque_key(k: PathKey) -> bool {
    k.len() >= 1 && k.last() == opaque_marker()
}

/// What a whiteout removes: the directory it sits in (for the opaque marker,
/// whose contents go) or the sibling it names.
pub open spec fn whiteout_target(k: PathKey) -> PathKey {
    if is_opaque_key(k) {
        k.drop_last()
    } else {
        k.drop_last().push(k.last().skip(4))
    }
}

/// Whiteout `w` of `upper` removes `q` from the trees below.
pub open spec fn wipes(upper: Map<PathKey, NodeView>, w: PathKey, q: PathKey) -> bool {
    is_leaf(upper, w) && is_whiteout_key(w) && removed_by(whiteout_target(w), !is_opaque_key(w), q)
}

/// `upper` laid over `lower`.
pub open spec fn stack_map(lower: Map<PathKey, NodeView>, upper: Map<PathKey, NodeView>) -> Map<
    PathKey,
    NodeView,
> {
    Map::new(
        |q: PathKey|
            (lower.contains_key(q) && !exists|w: PathKey| #[trigger] wipes(upper, w, q)) || (
            upper.contains_key(q) && !(is_leaf(upper, q) && is_whiteout_key(q))),
        |q: PathKey|
            if upper.contains_key(q) && !(is_leaf(upper, q) && is_whiteout_key(q)) {
                upper[q]
            } else {
                lower[q]
            },
    )
}

/// `lower` after the whiteouts among the first `i` keys of `upper` have acted.
pub open spec fn wiped_upto(
    lower: Map<PathKey, NodeView>,
    upper: Map<PathKey, NodeView>,
    ks: Seq<PathKey>,
    i: int,
) -> Map<PathKey, NodeView> {
    Map::new(
        |q: PathKey|
            lower.contains_key(q) && !exists|j: int| 0 <= j < i && #[trigger] wipes(upper, ks[j], q),
        |q: PathKey| lower[q],
    )
}

/// `base` with the non-whiteout entries among the first `i` keys of `upper` laid over it.
pub open spec fn overlay_upto(
    base: Map<PathKey, NodeView>,
    upper: Map<PathKey, NodeView>,
    ks: Seq<PathKey>,
    i: int,
) -> Map<PathKey, NodeView> {
    Map::new(
        |q: PathKey|
            base.contains_key(q) || (ks.take(i).contains(q) && !(is_leaf(upper, q)
                && is_whiteout_key(q))),
        |q: PathKey|
            if ks.take(i).contains(q) && !(is_leaf(upper, q) && is_whiteout_key(q)) {
                upper[q]
            } else {
                base[q]
            },
    )
}

/// How `current` differs from `reference`: type, content, mode and owner count.
pub open spec fn info_diff(reference: InfoView, current: InfoView) -> DiffType {
    if reference.entry_type == current.entry_type && reference.content_hash == current.content_hash
        && reference.mode == current.mode && reference.uid == current.uid && reference.gid
        == current.gid {
        DiffType::Unmodified
    } else {
        DiffType::Modified
    }
}

fn info_diff_exec(reference: &FileInfo, current: &FileInfo) -> (r: DiffType)
    ensures
        r == info_diff(reference@, current@),
{
    if reference.entry_type == current.entry_type && reference.content_hash == current.content_hash
        && reference.mode == current.mode && reference.uid == current.uid && reference.gid
        == current.gid {
        DiffType::Unmodified
    } else {
        DiffType::Modified
    }
}

/// The node with another diff mark.
pub open spec fn with_diff(n: NodeView, d: DiffType) -> NodeView {
    NodeView { diff_type: d, ..n }
}

/// The diff mark of an entry of `mine` against `reference`.
pub open spec fn diff_against(
    mine: Map<PathKey, NodeView>,
    reference: Map<PathKey, NodeView>,
    q: PathKey,
) -> DiffType {
    if reference.contains_key(q) {
        info_diff(reference[q].info, mine[q].info)
    } else {
        DiffType::Added
    }
}

/// `mine` marked against `reference`, with the entries only `reference` has added as removed.
pub open spec fn compare_map(mine: Map<PathKey, NodeView>, reference: Map<PathKey, NodeView>) -> Map<
    PathKey,
    NodeView,
> {
    Map::new(
        |q: PathKey| mine.contains_key(q) || reference.contains_key(q),
        |q: PathKey|
            if mine.contains_key(q) {
                with_diff(mine[q], diff_against(mine, reference, q))
            } else {
                with_diff(reference[q], DiffType::Removed)
            },
    )
}

/// `mine` with the first `i` keys marked.
pub open spec fn marked_upto(
    mine: Map<PathKey, NodeView>,
    reference: Map<PathKey, NodeView>,
    ks: Seq<PathKey>,
    i: int,
) -> Map<PathKey, NodeView> {
    Map::new(
        |q: PathKey| mine.contains_key(q),
        |q: PathKey|
            if ks.take(i).contains(q) {
                with_diff(mine[q], diff_against(mine, reference, q))
            } else {
                mine[q]
            },
    )
}

/// Fully marked `mine` with the first `j` keys of `reference` added where missing.
pub open spec fn removed_upto(
    mine: Map<PathKey, NodeView>,
    reference: Map<PathKey, NodeView>,
    rks: Seq<PathKey>,
    j: int,
) -> Map<PathKey, NodeView> {
    Map::new(
        |q: PathKey| mine.contains_key(q) || rks.take(j).contains(q),
        |q: PathKey|
            if mine.contains_key(q) {
                with_diff(mine[q], diff_against(mine, reference, q))
            } else {
                with_diff(reference[q], DiffType::Removed)
            },
    )
}

pub proof fn lemma_take_push_contains<T>(ks: Seq<T>, i: int)
    requires
        0 <= i < ks.len(),
    ensures
        forall|q: T| #[trigger] ks.take(i + 1).contains(q) == (ks.take(i).contains(q) || q == ks[i]),
{
    assert forall|q: T| #[trigger] ks.take(i + 1).contains(q) == (ks.take(i).contains(q) || q
        == ks[i]) by {
        if ks.take(i + 1).contains(q) {
            let j = choose|j: int| 0 <= j < i + 1 && #[trigger] ks.take(i + 1)[j] == q;
            if j < i {
                assert(ks.take(i)[j] == q);
            }
        }
        if ks.take(i).contains(q) {
            let j = choose|j: int| 0 <= j < i && #[trigger] ks.take(i)[j] == q;
            assert(ks.take(i + 1)[j] == q);
        }
        if q == ks[i] {
            assert(ks.take(i + 1)[i] == q);
        }
    }
}

/// The characters of each string.
pub open spec fn strings_view(v: Seq<String>) -> Seq<Seq<char>> {
    v.map_values(|x: String| x@)
}

/// No directory above `q` is collapsed.
pub open spec fn visible(m: Map<PathKey, NodeView>, q: PathKey) -> bool {
    m.contains_key(q) && forall|n: int| 1 <= n < q.len() ==> !(#[trigger] m[q.take(n)]).collapsed
}

/// Whether the entry `q` is listed: visible, its mark not hidden and, with a
/// pattern, some entry at or below it matching the pattern.
pub open spec fn shown(
    m: Map<PathKey, NodeView>,
    hidden: Seq<DiffType>,
    pattern: Option<Seq<char>>,
    q: PathKey,
) -> bool {
    &&& visible(m, q)
    &&& !hidden.contains(m[q].diff_type)
    &&& match pattern {
        None => true,
        Some(p) => exists|d: PathKey|
            m.contains_key(d) && is_prefix(q, d) && #[trigger] crate::matching::regex_matches(
                p,
                join_path(d),
            ),
    }
}

/// The joined paths of the listed entries, in tree order.
pub open spec fn shown_paths(
    m: Map<PathKey, NodeView>,
    ks: Seq<PathKey>,
    hidden: Seq<DiffType>,
    pattern: Option<Seq<char>>,
) -> Seq<Seq<char>> {
    ks.filter_map(|q: PathKey| if shown(m, hidden, pattern, q) { Some(join_path(q)) } else { None })
}

/// Keeping and rewriting the elements of a sequence without repeats, where
/// no two of them are rewritten to the same value, gives a sequence without
/// repeats.
pub proof fn lemma_filter_map_distinct<A, B>(s: Seq<A>, f: spec_fn(A) -> Option<B>)
    requires
        s.no_duplicates(),
        forall|a: A, b: A|
            s.contains(a) && s.contains(b) && (#[trigger] f(a)) is Some && f(a) == #[trigger] f(b) ==> a == b,
    ensures
        s.filter_map(f).no_duplicates(),
    decreases s.len(),
{
    if s.len() > 0 {
        let rest = s.drop_last();
        assert forall|i: int, j: int| 0 <= i < rest.len() && 0 <= j < rest.len() && i != j implies rest[i]
            != rest[j] by {
            assert(rest[i] == s[i] && rest[j] == s[j]);
        }
        assert forall|a: A, b: A|
            rest.contains(a) && rest.contains(b) && (#[trigger] f(a)) is Some && f(a) == #[trigger] f(b)
                implies a == b by {
            let i = choose|i: int| 0 <= i < rest.len() && rest[i] == a;
            let j = choose|j: int| 0 <= j < rest.len() && rest[j] == b;
            assert(s[i] == a && s[j] == b);
        }
        lemma_filter_map_distinct(rest, f);
        match f(s.last()) {
            Some(v) => {
                let r = rest.filter_map(f);
                if r.contains(v) {
                    rest.lemma_filter_map_contains(f, v);
                    let t = choose|t: A| #[trigger] rest.contains(t) && f(t) == Some(v);
                    let i = choose|i: int| 0 <= i < rest.len() && rest[i] == t;
                    assert(s[i] == t);
                    assert(s.contains(s.last()));
                    assert(t == s.last());
                    assert(s[i] == s[s.len() - 1]);
                    assert(false);
                }
                let out = r + seq![v];
                assert forall|i: int, j: int| 0 <= i < out.len() && 0 <= j < out.len() && i != j implies out[i]
                    != out[j] by {
                    if i < r.len() && j < r.len() {
                    } else if i < r.len() {
                        assert(r.contains(out[i]));
                    } else {
                        assert(r.contains(out[j]));
                    }
                }
            },
            None => {},
        }
    }
}

/// The paths listed for a tree's entries never repeat: each entry is listed
/// under its own path.
pub proof fn lemma_shown_paths_distinct(
    t: FileTree,
    hidden: Seq<DiffType>,
    pattern: Option<Seq<char>>,
)
    requires
        t.wf(),
    ensures
        shown_paths(t.nodes(), t.ordered_keys(), hidden, pattern).no_duplicates(),
{
    t.lemma_wf_facts();
    let ks = t.ordered_keys();
    let m = t.nodes();
    let f = |q: PathKey| if shown(m, hidden, pattern, q) { Some(join_path(q)) } else { None };
    assert forall|i: int, j: int| 0 <= i < ks.len() && 0 <= j < ks.len() && i != j implies ks[i] != ks[j] by {
        if i < j {
            assert(path_lt(ks[i], ks[j]));
            if ks[i] == ks[j] {
                lemma_path_lt_irrefl(ks[i]);
            }
        } else {
            assert(path_lt(ks[j], ks[i]));
            if ks[i] == ks[j] {
                lemma_path_lt_irrefl(ks[i]);
            }
        }
    }
    assert forall|a: PathKey, b: PathKey|
        ks.contains(a) && ks.contains(b) && (#[trigger] f(a)) is Some && f(a) == #[trigger] f(b) implies a
        == b by {
        let i = choose|i: int| 0 <= i < ks.len() && ks[i] == a;
        let j = choose|j: int| 0 <= j < ks.len() && ks[j] == b;
        assert(m.contains_key(ks[i]) && m.contains_key(ks[j]));
        lemma_join_injective(a, b);
    }
    lemma_filter_map_distinct(ks, f);
}

/// A rewrite applied to every entry.
#[derive(Clone, Copy)]
pub enum NodeOp {
    CollapseDirs,
    Expand,
    Mark(DiffType),
}

/// What a rewrite makes of one node.
pub open spec fn apply_op(n: NodeView, op: NodeOp) -> NodeView {
    match op {
        NodeOp::CollapseDirs => if n.info.entry_type == TarEntryType::Directory {
            NodeView { collapsed: true, ..n }
        } else {
            n
        },
        NodeOp::Expand => NodeView { collapsed: false, ..n },
        NodeOp::Mark(d) => with_diff(n, d),
    }
}

/// Every entry rewritten.
pub open spec fn transform_map(m: Map<PathKey, NodeView>, op: NodeOp) -> Map<PathKey, NodeView> {
    Map::new(|q: PathKey| m.contains_key(q), |q: PathKey| apply_op(m[q], op))
}

/// The first `i` entries rewritten.
pub open spec fn transform_upto(m: Map<PathKey, NodeView>, ks: Seq<PathKey>, i: int, op: NodeOp) -> Map<
    PathKey,
    NodeView,
> {
    Map::new(
        |q: PathKey| m.contains_key(q),
        |q: PathKey|
            if ks.take(i).contains(q) {
                apply_op(m[q], op)
            } else {
                m[q]
            },
    )
}

/// The key that a path string names: leading `/` dropped, split on `/`.
pub open spec fn path_key(path: Seq<char>) -> PathKey {
    split_path(trim_start_char(path, '/'))
}

/// The key whose subtree a path string names: none for the empty path (the
/// whole tree), else its components.
pub open spec fn subtree_key(path: Seq<char>) -> PathKey {
    let t = trim_start_char(path, '/');
    if t.len() == 0 {
        Seq::empty()
    } else {
        split_path(t)
    }
}

impl FileTree {
    /// The root node.
    pub closed spec fn root_view(&self) -> NodeView {
        self.root@
    }

    /// The root node (the directory `/`).
    pub fn root(&self) -> (r: &FileNode)
        ensures
            r@ == self.root_view(),
    {
        &self.root
    }

    /// The entries as an association list.
    pub closed spec fn alist(&self) -> Seq<KeyedNode> {
        entries_kv(self.entries@)
    }

    /// The non-root nodes of the tree, by path key.
    pub closed spec fn nodes(&self) -> Map<PathKey, NodeView> {
        alist_map(self.alist())
    }

    /// The tree's entries in tree order.
    pub closed spec fn ordered_keys(&self) -> Seq<PathKey> {
        self.alist().map_values(|e: KeyedNode| e.0)
    }

    /// The internal invariant: entries sorted, keys clean, directories present.
    pub closed spec fn wf(&self) -> bool {
        alist_wf(self.alist())
    }

    pub proof fn lemma_wf_facts(&self)
        requires
            self.wf(),
        ensures
            prefix_closed(self.nodes()),
            forall|k: PathKey|
                #[trigger] self.nodes().contains_key(k) ==> k.len() >= 1 && components_clean(k),
            self.ordered_keys().len() == self.nodes().dom().len(),
            forall|i: int|
                0 <= i < self.ordered_keys().len() ==> self.nodes().contains_key(
                    #[trigger] self.ordered_keys()[i],
                ),
            forall|i: int, j: int|
                0 <= i < j < self.ordered_keys().len() ==> path_lt(
                    #[trigger] self.ordered_keys()[i],
                    #[trigger] self.ordered_keys()[j],
                ),
            forall|k: PathKey|
                #[trigger] self.nodes().contains_key(k) ==> self.ordered_keys().contains(k),
    {
        let s = self.alist();
        assert forall|k: PathKey| #[trigger] self.nodes().contains_key(k) implies k.len() >= 1
            && components_clean(k) && self.ordered_keys().contains(k) by {
            let i = choose|i: int| 0 <= i < s.len() && (#[trigger] s[i]).0 == k;
            assert(self.ordered_keys()[i] == k);
        }
        assert forall|i: int| 0 <= i < self.ordered_keys().len() implies self.nodes().contains_key(
            #[trigger] self.ordered_keys()[i],
        ) by {
            lemma_alist_at(s, i);
        }
        self.lemma_dom_len();
    }

    proof fn lemma_dom_len(&self)
        requires
            self.wf(),
        ensures
            self.ordered_keys().len() == self.nodes().dom().len(),
    {
        let s = self.alist();
        let ks = self.ordered_keys();
        assert forall|i: int, j: int| 0 <= i < ks.len() && 0 <= j < ks.len() && i != j implies ks[i]
            != ks[j] by {
            if ks[i] == ks[j] {
                lemma_sorted_unique(s, i, j);
            }
        }
        ks.unique_seq_to_set();
        assert(ks.to_set() =~= self.nodes().dom()) by {
            assert forall|k: PathKey| ks.to_set().contains(k) implies self.nodes().dom().contains(
                k,
            ) by {
                let i = choose|i: int| 0 <= i < ks.len() && ks[i] == k;
                assert(s[i].0 == k);
            }
            assert forall|k: PathKey| self.nodes().dom().contains(k) implies ks.to_set().contains(
                k,
            ) by {
                let i = choose|i: int| 0 <= i < s.len() && (#[trigger] s[i]).0 == k;
                assert(ks[i] == k);
            }
        }
    }

    /// An empty tree: just the root directory `/`.
    pub fn new() -> (r: Self)
        ensures
            r.wf(),
            r.nodes() == Map::<PathKey, NodeView>::empty(),
            r.root_view() == fresh_node(seq!['/'], default_info()),
    {
        let slash = vec!['/'];
        let root_path = vec_to_string(&slash);
        let r = FileTree { root: FileNode::new(root_path, FileInfo::default()), entries: Vec::new() };
        proof {
            assert(r.alist() =~= Seq::<KeyedNode>::empty());
            lemma_alist_empty();
        }
        assert(slash@ =~= seq!['/']);
        r
    }

    /// Position of the entry with key `key`, if any.
    pub(crate) fn find(&self, key: &Vec<Vec<char>>) -> (r: Option<usize>)
        requires
            self.wf(),
        ensures
            match r {
                Some(i) => i < self.alist().len() && self.alist()[i as int].0 == key_of(key@),
                None => !self.nodes().contains_key(key_of(key@)),
            },
    {
        let ghost s = self.alist();
        let ghost k = key_of(key@);
        let mut lo: usize = 0;
        let mut hi: usize = self.entries.len();
        while lo < hi
            invariant
                s == self.alist(),
                keys_sorted(s),
                k == key_of(key@),
                lo <= hi <= s.len(),
                forall|j: int| 0 <= j < lo ==> path_lt(#[trigger] s[j].0, k),
                forall|j: int| hi <= j < s.len() ==> path_lt(k, #[trigger] s[j].0),
            decreases hi - lo,
        {
            let mid = lo + (hi - lo) / 2;
            let here = &self.entries[mid].parts;
            if path_eq(here, key) {
                return Some(mid);
            }
            if path_less(key, here) {
                proof {
                    assert forall|j: int| mid <= j < s.len() implies path_lt(k, #[trigger] s[j].0) by {
                        if j > mid {
                            lemma_path_lt_trans(k, s[mid as int].0, s[j].0);
                        }
                    }
                }
                hi = mid;
            } else {
                proof {
                    lemma_path_lt_total(k, s[mid as int].0);
                    assert forall|j: int| 0 <= j < mid + 1 implies path_lt(#[trigger] s[j].0, k) by {
                        if j < mid {
                            lemma_path_lt_trans(s[j].0, s[mid as int].0, k);
                        }
                    }
                }
                lo = mid + 1;
            }
        }
        proof {
            if self.nodes().contains_key(k) {
                let j = key_index(s, k);
                assert(s[j].0 == k);
                lemma_path_lt_irrefl(k);
            }
        }
        None
    }

    /// The node stored under `key`, if any.
    pub(crate) fn node_at(&self, key: &Vec<Vec<char>>) -> (r: Option<&FileNode>)
        requires
            self.wf(),
        ensures
            match r {
                Some(n) => self.nodes().contains_key(key_of(key@)) && n@ == self.nodes()[key_of(
                    key@,
                )],
                None => !self.nodes().contains_key(key_of(key@)),
            },
    {
        match self.find(key) {
            Some(i) => {
                proof {
                    lemma_alist_at(self.alist(), i as int);
                }
                Some(&self.entries[i].node)
            },
            None => None,
        }
    }

    /// The node at `path` (a leading `/` is ignored; the empty path is the root).
    pub fn get_node(&self, path: &str) -> (r: Option<&FileNode>)
        requires
            self.wf(),
        ensures
            match r {
                Some(n) => lookup(self.root_view(), self.nodes(), path@) == Some(n@),
                None => lookup(self.root_view(), self.nodes(), path@) is None,
            },
    {
        let chars = str_to_chars(path);
        let trimmed = trim_start_matches_char(&chars, '/');
        if trimmed.len() == 0 {
            return Some(&self.root);
        }
        let parts = split_components(&trimmed);
        self.node_at(&parts)
    }

    /// Inserts an entry whose key is not in the tree, at its sorted place.
    fn insert_new(&mut self, e: TreeEntry)
        requires
            old(self).wf(),
            !old(self).nodes().contains_key(e.kv().0),
            e.kv().0.len() >= 1,
            components_clean(e.kv().0),
            forall|n: int|
                1 <= n < e.kv().0.len() ==> old(self).nodes().contains_key(
                    #[trigger] e.kv().0.take(n),
                ),
        ensures
            final(self).wf(),
            final(self).nodes() == old(self).nodes().insert(e.kv().0, e.kv().1),
            final(self).root_view() == old(self).root_view(),
    {
        let ghost s = self.alist();
        let ghost k = e.kv().0;
        let mut p: usize = 0;
        while p < self.entries.len() && !path_less(&e.parts, &self.entries[p].parts)
            invariant
                s == self.alist(),
                keys_sorted(s),
                k == e.kv().0,
                !alist_map(s).contains_key(k),
                p <= s.len(),
                forall|j: int| 0 <= j < p ==> path_lt(#[trigger] s[j].0, k),
            decreases s.len() - p,
        {
            proof {
                let j = p as int;
                assert(s[j].0 != k) by {
                    if s[j].0 == k {
                        assert(has_key(s, k));
                    }
                }
                lemma_path_lt_total(s[j].0, k);
            }
            p = p + 1;
        }
        proof {
            assert forall|j: int| p <= j < s.len() implies path_lt(k, #[trigger] s[j].0) by {
                if j > p {
                    lemma_path_lt_trans(k, s[p as int].0, s[j].0);
                }
            }
            lemma_alist_insert(s, p as int, e.kv());
        }
        self.entries.insert(p, e);
        proof {
            assert(self.alist() =~= s.insert(p as int, e.kv()));
            let m = self.nodes();
            assert forall|q: PathKey, n: int|
                #![trigger m.contains_key(q), q.take(n)]
                m.contains_key(q) && 1 <= n < q.len() implies m.contains_key(q.take(n)) by {
                if q != k {
                    assert(alist_map(s).contains_key(q));
                }
            }
            assert forall|i: int| 0 <= i < self.alist().len() implies (
            #[trigger] self.alist()[i]).0.len() >= 1 && components_clean(self.alist()[i].0) by {
                if i < p {
                    assert(self.alist()[i] == s[i]);
                } else if i > p {
                    assert(self.alist()[i] == s[i - 1]);
                }
            }
        }
    }

    /// Replaces the node at position `i`.
    fn set_node(&mut self, i: usize, node: FileNode)
        requires
            old(self).wf(),
            i < old(self).alist().len(),
        ensures
            final(self).wf(),
            final(self).nodes() == old(self).nodes().insert(old(self).alist()[i as int].0, node@),
            final(self).alist().len() == old(self).alist().len(),
            forall|j: int|
                0 <= j < final(self).alist().len() ==> (#[trigger] final(self).alist()[j]).0 == old(
                    self,
                ).alist()[j].0,
            final(self).root_view() == old(self).root_view(),
    {
        let ghost s = self.alist();
        let parts = self.entries[i].parts.clone();
        proof {
            assert(key_of(parts@) =~= key_of(self.entries@[i as int].parts@));
            lemma_alist_update(s, i as int, node@);
        }
        self.entries.set(i, TreeEntry { parts, node });
        proof {
            assert(self.alist() =~= s.update(i as int, (s[i as int].0, node@)));
            let m = self.nodes();
            assert(m.dom() =~= alist_map(s).dom());
            assert forall|j: int| 0 <= j < self.alist().len() implies (
            #[trigger] self.alist()[j]).0.len() >= 1 && components_clean(self.alist()[j].0) by {
                assert(self.alist()[j].0 == s[j].0);
            }
        }
    }

    /// Drops every entry strictly below `key`, and `key` itself when `inclusive`.
    fn remove_below(&mut self, key: &Vec<Vec<char>>, inclusive: bool)
        requires
            old(self).wf(),
        ensures
            final(self).wf(),
            final(self).nodes() == old(self).nodes().restrict(
                old(self).nodes().dom().filter(
                    |q: PathKey| !removed_by(key_of(key@), inclusive, q),
                ),
            ),
            final(self).root_view() == old(self).root_view(),
    {
        let ghost s = self.alist();
        let ghost k = key_of(key@);
        let ghost keep = |q: PathKey| !removed_by(k, inclusive, q);
        let mut kept: Vec<TreeEntry> = Vec::new();
        let mut j: usize = 0;
        proof {
            assert(s.take(0) =~= Seq::<KeyedNode>::empty());
            assert(entries_kv(kept@) =~= Seq::<KeyedNode>::empty());
            lemma_alist_empty();
            assert(alist_map(s.take(0)).restrict(alist_map(s.take(0)).dom().filter(keep))
                =~= Map::<PathKey, NodeView>::empty());
        }
        while j < self.entries.len()
            invariant
                s == self.alist(),
                alist_wf(s),
                k == key_of(key@),
                keep == (|q: PathKey| !removed_by(k, inclusive, q)),
                j <= s.len(),
                keys_sorted(entries_kv(kept@)),
                forall|t: int|
                    0 <= t < kept@.len() ==> has_key(
                        s.take(j as int),
                        (#[trigger] kept@[t]).kv().0,
                    ),
                forall|t: int| 0 <= t < kept@.len() ==> keep((#[trigger] kept@[t]).kv().0),
                alist_map(entries_kv(kept@)) == alist_map(
                    s.take(j as int),
                ).restrict(alist_map(s.take(j as int)).dom().filter(keep)),
            decreases s.len() - j,
        {
            let ghost ks = entries_kv(kept@);
            let ghost mt = alist_map(s.take(j as int));
            proof {
                assert(s.take(j + 1) =~= s.take(j as int).push(s[j as int]));
                assert forall|i: int, l: int| 0 <= i < l < s.take(j as int).len() implies path_lt(
                    #[trigger] s.take(j as int)[i].0,
                    #[trigger] s.take(j as int)[l].0,
                ) by {
                    assert(s.take(j as int)[i] == s[i]);
                    assert(s.take(j as int)[l] == s[l]);
                }
                lemma_alist_push(s.take(j as int), s[j as int]);
            }
            let drop = removes(key, inclusive, &self.entries[j].parts);
            if !drop {
                let e = self.entries[j].clone_entry();
                proof {
                    assert forall|t: int| 0 <= t < ks.len() implies path_lt(
                        #[trigger] ks[t].0,
                        e.kv().0,
                    ) by {
                        assert(ks[t] == kept@[t].kv());
                        let i = choose|i: int|
                            0 <= i < s.take(j as int).len() && (#[trigger] s.take(
                                j as int,
                            )[i]).0 == ks[t].0;
                        assert(s.take(j as int)[i] == s[i]);
                    }
                    lemma_alist_push(ks, e.kv());
                }
                kept.push(e);
                proof {
                    assert(entries_kv(kept@) =~= ks.push(e.kv()));
                    assert forall|t: int| 0 <= t < kept@.len() implies has_key(
                        s.take(j + 1),
                        (#[trigger] kept@[t]).kv().0,
                    ) by {
                        if t < ks.len() {
                            let kk = kept@[t].kv().0;
                            assert(ks[t] == kept@[t].kv());
                            let i = choose|i: int|
                                0 <= i < s.take(j as int).len() && (#[trigger] s.take(
                                    j as int,
                                )[i]).0 == kk;
                            assert(s.take(j + 1)[i] == s.take(j as int)[i]);
                        } else {
                            assert(s.take(j + 1)[j as int] == s[j as int]);
                        }
                    }
                    let m2 = alist_map(s.take(j + 1));
                    assert(alist_map(entries_kv(kept@)) =~= m2.restrict(
                        m2.dom().filter(keep),
                    ));
                }
            } else {
                proof {
                    let m2 = alist_map(s.take(j + 1));
                    assert(alist_map(ks) =~= m2.restrict(m2.dom().filter(keep)));
                    assert forall|t: int| 0 <= t < kept@.len() implies has_key(
                        s.take(j + 1),
                        (#[trigger] kept@[t]).kv().0,
                    ) by {
                        let kk = kept@[t].kv().0;
                        let i = choose|i: int|
                            0 <= i < s.take(j as int).len() && (#[trigger] s.take(
                                j as int,
                            )[i]).0 == kk;
                        assert(s.take(j + 1)[i] == s.take(j as int)[i]);
                    }
                }
            }
            j = j + 1;
        }
        self.entries = kept;
        proof {
            assert(s.take(s.len() as int) =~= s);
            let m = self.nodes();
            let om = alist_map(s);
            assert forall|q: PathKey, n: int|
                #![trigger m.contains_key(q), q.take(n)]
                m.contains_key(q) && 1 <= n < q.len() implies m.contains_key(q.take(n)) by {
                assert(om.contains_key(q.take(n)));
                if removed_by(k, inclusive, q.take(n)) {
                    lemma_removed_by_prefix(k, inclusive, q, n);
                }
            }
            assert forall|i: int| 0 <= i < self.alist().len() implies (
            #[trigger] self.alist()[i]).0.len() >= 1 && components_clean(self.alist()[i].0) by {
                let kk = self.alist()[i].0;
                assert(self.alist()[i] == kept@[i].kv());
                let l = choose|l: int| 0 <= l < s.len() && (#[trigger] s[l]).0 == kk;
            }
        }
    }

    /// Adds `path` with metadata `info`, creating any missing directories above
    /// it; whatever was stored at or below `path` is replaced.
    pub fn add_path(&mut self, path: &str, info: FileInfo)
        requires
            old(self).wf(),
        ensures
            final(self).wf(),
            final(self).root_view() == old(self).root_view(),
            trim_start_char(path@, '/').len() == 0 ==> final(self).nodes() == old(self).nodes(),
            trim_start_char(path@, '/').len() > 0 ==> final(self).nodes() == add_path_map(
                old(self).nodes(),
                path_key(path@),
                fresh_node(trim_start_char(path@, '/'), info@),
            ),
    {
        let chars = str_to_chars(path);
        let trimmed = trim_start_matches_char(&chars, '/');
        if trimmed.len() == 0 {
            return;
        }
        let parts = split_components(&trimmed);
        let ghost k = key_of(parts@);
        let ghost m0 = self.nodes();
        let n = parts.len();
        let mut i: usize = 1;
        proof {
            assert(fill_dirs(m0, k, 1) =~= m0);
        }
        while i < n
            invariant
                self.wf(),
                self.root_view() == old(self).root_view(),
                m0 == old(self).nodes(),
                k == key_of(parts@),
                n == parts@.len(),
                k.len() >= 1,
                components_clean(k),
                1 <= i <= n,
                self.nodes() == fill_dirs(m0, k, i as int),
            decreases n - i,
        {
            let prefix = prefix_parts(&parts, i);
            let ghost q = key_of(prefix@);
            match self.find(&prefix) {
                Some(_) => {
                    proof {
                        assert(fill_dirs(m0, k, i + 1) =~= fill_dirs(m0, k, i as int)) by {
                            assert(q.len() == i);
                            assert(is_prefix(q, k));
                        }
                    }
                },
                None => {
                    let joined = join_components(&prefix);
                    let node = FileNode::new(vec_to_string(&joined), FileInfo::implied_dir());
                    let e = TreeEntry { parts: prefix, node };
                    proof {
                        assert(q.len() == i);
                        assert forall|j: int| 0 <= j < q.len() implies !crate::text::has_char(
                            #[trigger] q[j],
                            '/',
                        ) by {
                            assert(q[j] == k[j]);
                        }
                        assert forall|l: int| 1 <= l < q.len() implies self.nodes().contains_key(
                            #[trigger] q.take(l),
                        ) by {
                            assert(q.take(l) =~= k.take(l));
                            assert(is_prefix(k.take(l), k));
                        }
                    }
                    self.insert_new(e);
                    proof {
                        assert(self.nodes() =~= fill_dirs(m0, k, i + 1)) by {
                            assert(is_prefix(q, k));
                            assert forall|r: PathKey|
                                1 <= r.len() < i + 1 && is_prefix(r, k) && r.len() == i implies r
                                == q by {
                                assert(r =~= k.take(i as int));
                            }
                        }
                    }
                },
            }
            i = i + 1;
        }
        self.remove_below(&parts, false);
        let ghost m1 = self.nodes();
        let leaf = FileNode::new(vec_to_string(&trimmed), info);
        match self.find(&parts) {
            Some(j) => {
                self.set_node(j, leaf);
            },
            None => {
                let e = TreeEntry { parts, node: leaf };
                proof {
                    assert forall|l: int| 1 <= l < k.len() implies self.nodes().contains_key(
                        #[trigger] k.take(l),
                    ) by {
                        assert(is_prefix(k.take(l), k));
                        assert(fill_dirs(m0, k, n as int).contains_key(k.take(l)));
                        assert(!is_strict_prefix(k, k.take(l)));
                    }
                }
                self.insert_new(e);
            },
        }
        proof {
            let leafv = fresh_node(trimmed@, info@);
            let spec_m = add_path_map(m0, k, leafv);
            assert(k.take(k.len() as int) =~= k);
            assert(self.nodes() =~= m1.insert(k, leafv));
            assert forall|q: PathKey| #[trigger] spec_m.contains_key(q) implies m1.insert(
                k,
                leafv,
            ).contains_key(q) by {
                if q != k && is_prefix(q, k) && q.len() >= 1 {
                    assert(q.len() < k.len()) by {
                        if q.len() == k.len() {
                            assert(q =~= k);
                        }
                    }
                }
            }
            assert(spec_m =~= m1.insert(k, leafv));
        }
    }

    /// Number of non-root entries.
    pub fn entry_count(&self) -> (r: usize)
        ensures
            r == self.ordered_keys().len(),
    {
        self.entries.len()
    }

    /// Components of the `i`-th entry in tree order.
    pub(crate) fn entry_parts(&self, i: usize) -> (r: &Vec<Vec<char>>)
        requires
            i < self.ordered_keys().len(),
        ensures
            key_of(r@) == self.ordered_keys()[i as int],
    {
        &self.entries[i].parts
    }

    /// Node of the `i`-th entry in tree order.
    pub fn entry_node(&self, i: usize) -> (r: &FileNode)
        requires
            self.wf(),
            i < self.ordered_keys().len(),
        ensures
            self.nodes().contains_key(self.ordered_keys()[i as int]),
            r@ == self.nodes()[self.ordered_keys()[i as int]],
    {
        proof {
            lemma_alist_at(self.alist(), i as int);
        }
        &self.entries[i].node
    }

    /// Whether the `i`-th entry has nothing below it.
    pub fn entry_is_leaf(&self, i: usize) -> (r: bool)
        requires
            self.wf(),
            i < self.ordered_keys().len(),
        ensures
            r == is_leaf(self.nodes(), self.ordered_keys()[i as int]),
    {
        let ghost s = self.alist();
        let ghost ks = self.ordered_keys();
        let ghost m = self.nodes();
        proof {
            lemma_alist_at(s, i as int);
        }
        if i < self.entries.len() - 1 && removes(
            &self.entries[i].parts,
            false,
            &self.entries[i + 1].parts,
        ) {
            proof {
                lemma_alist_at(s, i + 1);
                assert(m.contains_key(ks[i + 1]));
            }
            return false;
        }
        proof {
            let k = ks[i as int];
            assert forall|q: PathKey| #[trigger] m.contains_key(q) implies !is_strict_prefix(k, q) by {
                let j = key_index(s, q);
                assert(ks[j] == q);
                if is_strict_prefix(k, q) {
                    if j < i {
                        lemma_prefix_path_lt(k, q);
                        lemma_path_lt_asym(q, k);
                    } else if j == i {
                    } else if j == i + 1 {
                    } else {
                        let b = ks[i + 1];
                        assert(path_lt(k, b));
                        assert(!is_prefix(k, b)) by {
                            if is_prefix(k, b) {
                                if k.len() == b.len() {
                                    assert(k =~= b);
                                    lemma_path_lt_irrefl(k);
                                }
                            }
                        }
                        crate::paths::lemma_path_lt_below(k, b, q);
                        assert(path_lt(b, q));
                        lemma_path_lt_asym(b, q);
                    }
                }
            }
        }
        true
    }

    /// The sum of the sizes of the entries at or below key `k`.
    pub closed spec fn subtree_total(&self, k: PathKey) -> int {
        sum_below(self.alist(), k)
    }

    /// The sum of the sizes of all entries.
    pub closed spec fn total_bytes(&self) -> int {
        sum_below(self.alist(), Seq::empty())
    }

    /// The size of a file's subtree is the file's own size.
    pub proof fn law_subtree_of_leaf(&self, k: PathKey)
        requires
            self.wf(),
            is_leaf(self.nodes(), k),
        ensures
            map_subtree(self.nodes(), k) == self.nodes()[k].info.size,
    {
        let s = self.alist();
        let i = key_index(s, k);
        lemma_alist_at(s, i);
        assert forall|j: int| 0 <= j < s.len() && j != i implies !is_strict_prefix(
            k,
            #[trigger] s[j].0,
        ) by {
            assert(has_key(s, s[j].0));
            assert(self.nodes().contains_key(s[j].0));
        }
        lemma_sum_below_single(s, k, i);
        self.lemma_subtree_of_nodes(k);
    }

    /// The subtree sum of a tree is that of its entries.
    pub proof fn lemma_subtree_of_nodes(&self, k: PathKey)
        requires
            self.wf(),
        ensures
            self.subtree_total(k) == map_subtree(self.nodes(), k),
            self.total_bytes() == map_subtree(self.nodes(), Seq::empty()),
    {
        let s = self.alist();
        assert(keys_sorted(s) && alist_map(s) == self.nodes());
        let c = canonical_alist(self.nodes());
        lemma_sorted_alist_unique(c, s);
    }

    /// A well-formed tree lists its keys in the one sorted order of its entries.
    pub proof fn lemma_ordered_keys_canonical(&self)
        requires
            self.wf(),
        ensures
            self.ordered_keys() == canonical_keys(self.nodes()),
    {
        let s = self.alist();
        assert(keys_sorted(s) && alist_map(s) == self.nodes());
        let c = canonical_alist(self.nodes());
        lemma_sorted_alist_unique(c, s);
    }

    /// No subtree weighs more than the whole tree.
    pub proof fn law_subtree_within_total(&self, k: PathKey)
        requires
            self.wf(),
        ensures
            0 <= map_subtree(self.nodes(), k) <= map_subtree(self.nodes(), Seq::empty()),
    {
        lemma_sum_below_le(self.alist(), k);
        self.lemma_subtree_of_nodes(k);
    }

    /// The total size of the entries at or below `key`.
    fn subtree_size_key(&self, key: &Vec<Vec<char>>) -> (r: u64)
        requires
            self.subtree_total(key_of(key@)) <= u64::MAX,
        ensures
            r == self.subtree_total(key_of(key@)),
    {
        let ghost s = self.alist();
        let ghost k = key_of(key@);
        let mut acc: u64 = 0;
        let mut i: usize = 0;
        proof {
            assert(s.take(0) =~= Seq::<KeyedNode>::empty());
        }
        while i < self.entries.len()
            invariant
                s == self.alist(),
                k == key_of(key@),
                sum_below(s, k) <= u64::MAX,
                i <= s.len(),
                acc == sum_below(s.take(i as int), k),
            decreases s.len() - i,
        {
            proof {
                assert(s.take(i + 1).drop_last() =~= s.take(i as int));
                lemma_sum_below_take_le(s, k, i + 1);
                lemma_sum_below_nonneg(s.take(i as int), k);
            }
            if removes(key, true, &self.entries[i].parts) {
                proof {
                    assert(k.take(k.len() as int) =~= k);
                }
                acc = acc + self.entries[i].node.info.size;
            } else {
                proof {
                    if is_prefix(k, s[i as int].0) {
                        if k.len() < s[i as int].0.len() {
                        } else {
                            assert(k =~= s[i as int].0);
                        }
                    }
                }
            }
            i = i + 1;
        }
        proof {
            assert(s.take(s.len() as int) =~= s);
        }
        acc
    }

    /// The total size of the entries at or below `path` (a leading `/` is
    /// ignored; the empty path names the whole tree).
    pub fn subtree_size(&self, path: &str) -> (r: u64)
        requires
            self.wf(),
            map_subtree(self.nodes(), subtree_key(path@)) <= u64::MAX,
        ensures
            r == map_subtree(self.nodes(), subtree_key(path@)),
    {
        let chars = str_to_chars(path);
        let trimmed = trim_start_matches_char(&chars, '/');
        let parts: Vec<Vec<char>> = if trimmed.len() == 0 {
            Vec::new()
        } else {
            split_components(&trimmed)
        };
        proof {
            assert(key_of(parts@) =~= subtree_key(path@));
            self.lemma_subtree_of_nodes(key_of(parts@));
        }
        self.subtree_size_key(&parts)
    }

    /// A copy of the tree.
    pub fn clone_tree(&self) -> (r: FileTree)
        requires
            self.wf(),
        ensures
            r.wf(),
            r.nodes() == self.nodes(),
            r.ordered_keys() == self.ordered_keys(),
            r.root_view() == self.root_view(),
    {
        let mut entries: Vec<TreeEntry> = Vec::new();
        let mut i: usize = 0;
        while i < self.entries.len()
            invariant
                i <= self.entries@.len(),
                entries@.len() == i,
                entries_kv(entries@) == self.alist().take(i as int),
            decreases self.entries@.len() - i,
        {
            let ghost before = entries@;
            let e = self.entries[i].clone_entry();
            entries.push(e);
            assert forall|j: int| 0 <= j < i + 1 implies #[trigger] entries_kv(entries@)[j] == self.alist().take(i + 1)[j] by {
                if j < i {
                    assert(entries@[j] == before[j]);
                    assert(entries_kv(before)[j] == self.alist().take(
                        i as int,
                    )[j]);
                }
            }
            assert(entries_kv(entries@) =~= self.alist().take(i + 1));
            i = i + 1;
        }
        let r = FileTree { root: self.root.clone(), entries };
        assert(self.alist().take(self.alist().len() as int) =~= self.alist());
        assert(r.alist() =~= self.alist());
        r
    }

    /// The parts that removing for whiteout entry `i` starts from, and whether
    /// that starting point itself goes too.
    fn whiteout_removal(&self, i: usize) -> (r: (Vec<Vec<char>>, bool))
        requires
            i < self.ordered_keys().len(),
            is_whiteout_key(self.ordered_keys()[i as int]),
        ensures
            key_of(r.0@) == whiteout_target(self.ordered_keys()[i as int]),
            r.1 == !is_opaque_key(self.ordered_keys()[i as int]),
    {
        let parts = &self.entries[i].parts;
        let n = parts.len();
        let ghost k = key_of(parts@);
        let mut target = prefix_parts(parts, n - 1);
        assert(k.take(n - 1) =~= k.drop_last());
        let last = &parts[n - 1];
        let opaque = crate::text::chars_eq(last, &opaque_marker_chars());
        if opaque {
            (target, false)
        } else {
            let ghost before = target@;
            let name = crate::text::sub_chars(last, 4, last.len());
            target.push(name);
            assert(key_of(target@) =~= k.drop_last().push(k.last().skip(4)));
            (target, true)
        }
    }

    /// Whether entry `i` is a whiteout that sits at a leaf.
    pub fn entry_is_whiteout_leaf(&self, i: usize) -> (r: bool)
        requires
            self.wf(),
            i < self.ordered_keys().len(),
        ensures
            r == (is_leaf(self.nodes(), self.ordered_keys()[i as int]) && is_whiteout_key(
                self.ordered_keys()[i as int],
            )),
    {
        proof {
            self.lemma_wf_facts();
        }
        let parts = &self.entries[i].parts;
        let n = parts.len();
        assert(self.nodes().contains_key(self.ordered_keys()[i as int]));
        assert(key_of(parts@).len() == parts@.len());
        let wh = crate::text::starts_with(&parts[n - 1], &whiteout_prefix_chars());
        wh && self.entry_is_leaf(i)
    }

    /// This tree with `upper` laid over it: whiteouts in `upper` remove what
    /// they name (an opaque whiteout empties its directory), then every other
    /// entry of `upper` is added or replaces the entry at the same path.
    pub fn stack(&self, upper: &FileTree) -> (r: FileTree)
        requires
            self.wf(),
            upper.wf(),
        ensures
            r.wf(),
            r.nodes() == stack_map(self.nodes(), upper.nodes()),
            r.root_view() == self.root_view(),
    {
        let ghost lm = self.nodes();
        let ghost um = upper.nodes();
        let ghost ks = upper.ordered_keys();
        proof {
            upper.lemma_wf_facts();
        }
        let mut r = self.clone_tree();
        let n = upper.entries.len();
        let mut i: usize = 0;
        proof {
            assert(r.nodes() =~= wiped_upto(lm, um, ks, 0));
        }
        while i < n
            invariant
                r.wf(),
                upper.wf(),
                r.root_view() == self.root_view(),
                lm == self.nodes(),
                um == upper.nodes(),
                ks == upper.ordered_keys(),
                n == ks.len(),
                i <= n,
                r.nodes() == wiped_upto(lm, um, ks, i as int),
            decreases n - i,
        {
            if upper.entry_is_whiteout_leaf(i) {
                let (target, incl) = upper.whiteout_removal(i);
                let ghost prev = r.nodes();
                r.remove_below(&target, incl);
                proof {
                    let w = ks[i as int];
                    assert forall|q: PathKey| #[trigger] r.nodes().contains_key(q) == wiped_upto(
                        lm,
                        um,
                        ks,
                        i + 1,
                    ).contains_key(q) by {
                        if exists|j: int| 0 <= j < i + 1 && #[trigger] wipes(um, ks[j], q) {
                            let j = choose|j: int| 0 <= j < i + 1 && #[trigger] wipes(um, ks[j], q);
                            if j < i {
                                assert(!prev.contains_key(q));
                            } else {
                                assert(removed_by(key_of(target@), incl, q));
                            }
                        } else {
                            assert(!wipes(um, ks[i as int], q));
                            if prev.contains_key(q) {
                                assert(!removed_by(key_of(target@), incl, q));
                            }
                        }
                    }
                    assert(r.nodes() =~= wiped_upto(lm, um, ks, i + 1));
                }
            } else {
                proof {
                    assert(r.nodes() =~= wiped_upto(lm, um, ks, i + 1));
                }
            }
            i = i + 1;
        }
        let ghost base = r.nodes();
        proof {
            assert forall|q: PathKey| #[trigger] base.contains_key(q) == (lm.contains_key(q)
                && !exists|w: PathKey| #[trigger] wipes(um, w, q)) by {
                if lm.contains_key(q) && exists|w: PathKey| #[trigger] wipes(um, w, q) {
                    let w = choose|w: PathKey| #[trigger] wipes(um, w, q);
                    assert(ks.contains(w));
                    let j = choose|j: int| 0 <= j < ks.len() && ks[j] == w;
                    assert(wipes(um, ks[j], q));
                }
            }
            assert(ks.take(0) =~= Seq::<PathKey>::empty());
            assert(r.nodes() =~= overlay_upto(base, um, ks, 0));
        }
        let mut i: usize = 0;
        while i < n
            invariant
                r.wf(),
                upper.wf(),
                r.root_view() == self.root_view(),
                um == upper.nodes(),
                ks == upper.ordered_keys(),
                n == ks.len(),
                i <= n,
                r.nodes() == overlay_upto(base, um, ks, i as int),
            decreases n - i,
        {
            proof {
                assert(ks.take(i + 1) =~= ks.take(i as int).push(ks[i as int]));
            }
            if !upper.entry_is_whiteout_leaf(i) {
                let parts = upper.entry_parts(i);
                let node = upper.entry_node(i).clone();
                let ghost k = ks[i as int];
                match r.find(parts) {
                    Some(j) => {
                        r.set_node(j, node);
                        proof {
                            lemma_take_push_contains(ks, i as int);
                            assert(r.nodes() =~= overlay_upto(base, um, ks, i + 1));
                        }
                    },
                    None => {
                        let e = TreeEntry { parts: clone_parts(parts), node };
                        proof {
                            upper.lemma_wf_facts();
                            assert forall|l: int| 1 <= l < k.len() implies r.nodes().contains_key(
                                #[trigger] k.take(l),
                            ) by {
                                let p = k.take(l);
                                assert(um.contains_key(p));
                                assert(is_strict_prefix(p, k));
                                assert(!is_leaf(um, p));
                                assert(ks.contains(p));
                                let jj = choose|jj: int| 0 <= jj < ks.len() && ks[jj] == p;
                                lemma_prefix_path_lt(p, k);
                                if jj >= i {
                                    if jj > i {
                                        lemma_path_lt_asym(ks[i as int], ks[jj]);
                                    } else {
                                        lemma_path_lt_irrefl(p);
                                    }
                                }
                                assert(ks.take(i as int)[jj] == p);
                            }
                        }
                        r.insert_new(e);
                        proof {
                            lemma_take_push_contains(ks, i as int);
                            assert(r.nodes() =~= overlay_upto(base, um, ks, i + 1));
                        }
                    },
                }
            } else {
                proof {
                    lemma_take_push_contains(ks, i as int);
                    assert(r.nodes() =~= overlay_upto(base, um, ks, i + 1));
                }
            }
            i = i + 1;
        }
        proof {
            assert(ks.take(n as int) =~= ks);
            assert(r.nodes() =~= stack_map(lm, um));
        }
        r
    }

    /// Marks every entry with how it differs from `reference`, and adds the
    /// entries that only `reference` has, marked removed.
    pub fn compare_and_mark(&mut self, reference: &FileTree)
        requires
            old(self).wf(),
            reference.wf(),
        ensures
            final(self).wf(),
            final(self).root_view() == old(self).root_view(),
            final(self).nodes() == compare_map(old(self).nodes(), reference.nodes()),
    {
        let ghost mine = self.nodes();
        let ghost rm = reference.nodes();
        let ghost ks = self.ordered_keys();
        proof {
            self.lemma_wf_facts();
            reference.lemma_wf_facts();
            assert forall|a: int, b: int| 0 <= a < b < ks.len() implies ks[a] != ks[b] by {
                if ks[a] == ks[b] {
                    lemma_path_lt_irrefl(ks[a]);
                }
            }
            assert(ks.take(0) =~= Seq::<PathKey>::empty());
            assert(self.nodes() =~= marked_upto(mine, rm, ks, 0));
        }
        let n = self.entries.len();
        let mut i: usize = 0;
        while i < n
            invariant
                self.wf(),
                self.root_view() == old(self).root_view(),
                mine == old(self).nodes(),
                rm == reference.nodes(),
                reference.wf(),
                ks == self.ordered_keys(),
                n == ks.len(),
                i <= n,
                forall|q: PathKey| #[trigger] mine.contains_key(q) ==> ks.contains(q),
                forall|a: int, b: int| 0 <= a < b < ks.len() ==> ks[a] != ks[b],
                self.nodes() == marked_upto(mine, rm, ks, i as int),
            decreases n - i,
        {
            let d = match reference.node_at(&self.entries[i].parts) {
                Some(rn) => info_diff_exec(&rn.info, &self.entries[i].node.info),
                None => DiffType::Added,
            };
            let mut nd = self.entries[i].node.clone();
            nd.diff_type = d;
            proof {
                lemma_alist_at(self.alist(), i as int);
                assert(ks.take(i + 1) =~= ks.take(i as int).push(ks[i as int]));
                assert(!ks.take(i as int).contains(ks[i as int]));
            }
            self.set_node(i, nd);
            proof {
                assert(self.ordered_keys() =~= ks);
                lemma_take_push_contains(ks, i as int);
                assert(self.nodes() =~= marked_upto(mine, rm, ks, i + 1));
            }
            i = i + 1;
        }
        let ghost rks = reference.ordered_keys();
        let ghost marked = self.nodes();
        proof {
            assert(ks.take(n as int) =~= ks);
            assert(rks.take(0) =~= Seq::<PathKey>::empty());
            assert(self.nodes() =~= removed_upto(mine, rm, rks, 0));
        }
        let m = reference.entries.len();
        let mut j: usize = 0;
        while j < m
            invariant
                self.wf(),
                self.root_view() == old(self).root_view(),
                mine == old(self).nodes(),
                rm == reference.nodes(),
                reference.wf(),
                rks == reference.ordered_keys(),
                m == rks.len(),
                j <= m,
                self.nodes() == removed_upto(mine, rm, rks, j as int),
            decreases m - j,
        {
            let parts = reference.entry_parts(j);
            let ghost k = rks[j as int];
            proof {
                assert(rks.take(j + 1) =~= rks.take(j as int).push(k));
                reference.lemma_wf_facts();
            }
            match self.find(parts) {
                Some(_) => {
                    proof {
                        lemma_take_push_contains(rks, j as int);
                        assert(self.nodes() =~= removed_upto(mine, rm, rks, j + 1));
                    }
                },
                None => {
                    let mut nd = reference.entry_node(j).clone();
                    nd.diff_type = DiffType::Removed;
                    let e = TreeEntry { parts: clone_parts(parts), node: nd };
                    proof {
                        assert forall|l: int| 1 <= l < k.len() implies self.nodes().contains_key(
                            #[trigger] k.take(l),
                        ) by {
                            let p = k.take(l);
                            assert(rm.contains_key(p));
                            assert(rks.contains(p));
                            let jj = choose|jj: int| 0 <= jj < rks.len() && rks[jj] == p;
                            lemma_prefix_path_lt(p, k);
                            if jj >= j {
                                if jj > j {
                                    lemma_path_lt_asym(rks[j as int], rks[jj]);
                                } else {
                                    lemma_path_lt_irrefl(p);
                                }
                            }
                            assert(rks.take(j as int)[jj] == p);
                        }
                    }
                    self.insert_new(e);
                    proof {
                        lemma_take_push_contains(rks, j as int);
                        assert(self.nodes() =~= removed_upto(mine, rm, rks, j + 1));
                    }
                },
            }
            j = j + 1;
        }
        proof {
            assert(rks.take(m as int) =~= rks);
            assert forall|q: PathKey| #[trigger] rm.contains_key(q) implies rks.contains(q) by {
                reference.lemma_wf_facts();
            }
            assert(self.nodes() =~= compare_map(mine, rm));
        }
    }

    /// Paths (joined with `/`) of the entries that have nothing below them, in tree order.
    pub fn leaf_paths(&self) -> (r: Vec<String>)
        requires
            self.wf(),
        ensures
            strings_view(r@) == self.ordered_keys().filter_map(
                |q: PathKey| if is_leaf(self.nodes(), q) { Some(join_path(q)) } else { None },
            ),
    {
        let ghost ks = self.ordered_keys();
        let ghost f = |q: PathKey| if is_leaf(self.nodes(), q) { Some(join_path(q)) } else { None };
        let mut out: Vec<String> = Vec::new();
        let n = self.entries.len();
        let mut i: usize = 0;
        proof {
            assert(ks.take(0) =~= Seq::<PathKey>::empty());
            assert(strings_view(out@) =~= Seq::<Seq<char>>::empty());
        }
        while i < n
            invariant
                self.wf(),
                ks == self.ordered_keys(),
                n == ks.len(),
                i <= n,
                f == (|q: PathKey| if is_leaf(self.nodes(), q) { Some(join_path(q)) } else { None }),
                strings_view(out@) == ks.take(i as int).filter_map(f),
            decreases n - i,
        {
            proof {
                ks.lemma_filter_map_take_succ(f, i as int);
            }
            if self.entry_is_leaf(i) {
                let joined = join_components(self.entry_parts(i));
                let ghost before = out@;
                out.push(vec_to_string(&joined));
                assert(strings_view(out@) =~= strings_view(before).push(joined@));
            }
            i = i + 1;
        }
        proof {
            assert(ks.take(n as int) =~= ks);
        }
        out
    }

    /// Paths (joined with `/`) of the directory entries, in tree order.
    pub fn directory_paths(&self) -> (r: Vec<String>)
        requires
            self.wf(),
        ensures
            strings_view(r@) == self.ordered_keys().filter_map(
                |q: PathKey|
                    if self.nodes()[q].info.entry_type == TarEntryType::Directory {
                        Some(join_path(q))
                    } else {
                        None
                    },
            ),
    {
        let ghost ks = self.ordered_keys();
        let ghost f = |q: PathKey|
            if self.nodes()[q].info.entry_type == TarEntryType::Directory {
                Some(join_path(q))
            } else {
                None
            };
        let mut out: Vec<String> = Vec::new();
        let n = self.entries.len();
        let mut i: usize = 0;
        proof {
            assert(ks.take(0) =~= Seq::<PathKey>::empty());
            assert(strings_view(out@) =~= Seq::<Seq<char>>::empty());
        }
        while i < n
            invariant
                self.wf(),
                ks == self.ordered_keys(),
                n == ks.len(),
                i <= n,
                f == (|q: PathKey|
                    if self.nodes()[q].info.entry_type == TarEntryType::Directory {
                        Some(join_path(q))
                    } else {
                        None
                    }),
                strings_view(out@) == ks.take(i as int).filter_map(f),
            decreases n - i,
        {
            proof {
                ks.lemma_filter_map_take_succ(f, i as int);
            }
            let node = self.entry_node(i);
            if node.info.entry_type == TarEntryType::Directory {
                let joined = join_components(self.entry_parts(i));
                let ghost before = out@;
                out.push(vec_to_string(&joined));
                assert(strings_view(out@) =~= strings_view(before).push(joined@));
            }
            i = i + 1;
        }
        proof {
            assert(ks.take(n as int) =~= ks);
        }
        out
    }

    /// Whether the entry at position `i` is visible: no directory above it is collapsed.
    fn entry_visible(&self, i: usize) -> (r: bool)
        requires
            self.wf(),
            i < self.ordered_keys().len(),
        ensures
            r == visible(self.nodes(), self.ordered_keys()[i as int]),
    {
        let ghost m = self.nodes();
        let ghost k = self.ordered_keys()[i as int];
        proof {
            self.lemma_wf_facts();
        }
        let parts = &self.entries[i].parts;
        let n = parts.len();
        let mut l: usize = 1;
        while l < n
            invariant
                self.wf(),
                m == self.nodes(),
                i < self.ordered_keys().len(),
                k == self.ordered_keys()[i as int],
                k == key_of(parts@),
                m.contains_key(k),
                prefix_closed(m),
                n == parts@.len(),
                1 <= l <= n,
                forall|j: int| 1 <= j < l ==> !(#[trigger] m[k.take(j)]).collapsed,
            decreases n - l,
        {
            let prefix = prefix_parts(parts, l);
            match self.node_at(&prefix) {
                Some(node) => {
                    if node.collapsed {
                        assert(key_of(prefix@) == k.take(l as int));
                        assert(m[k.take(l as int)].collapsed);
                        return false;
                    }
                },
                None => {
                    assert(m.contains_key(k.take(l as int)));
                },
            }
            l = l + 1;
        }
        true
    }

    /// Paths (joined with `/`) of the visible entries, in tree order.
    pub fn visible_paths(&self) -> (r: Vec<String>)
        requires
            self.wf(),
        ensures
            strings_view(r@) == shown_paths(
                self.nodes(),
                self.ordered_keys(),
                Seq::empty(),
                None,
            ),
    {
        self.visible_paths_filtered(&Vec::new(), None)
    }

    /// Paths (joined with `/`) of the visible entries whose mark is not hidden and,
    /// when a pattern is given, at or below which some entry's path matches it.
    pub fn visible_paths_filtered(&self, hidden: &Vec<DiffType>, pattern: Option<&str>) -> (r: Vec<
        String,
    >)
        requires
            self.wf(),
            pattern matches Some(p) ==> crate::matching::regex_compiles(p@),
        ensures
            strings_view(r@) == shown_paths(
                self.nodes(),
                self.ordered_keys(),
                hidden@,
                match pattern {
                    Some(p) => Some(p@),
                    None => None,
                },
            ),
    {
        let ghost m = self.nodes();
        let ghost ks = self.ordered_keys();
        let ghost pat: Option<Seq<char>> = match pattern {
            Some(p) => Some(p@),
            None => None,
        };
        let ghost f = |q: PathKey| if shown(m, hidden@, pat, q) { Some(join_path(q)) } else { None };
        let n = self.entries.len();
        let mut matched: Vec<bool> = Vec::new();
        if let Some(p) = pattern {
            let mut i: usize = 0;
            while i < n
                invariant
                    self.wf(),
                    ks == self.ordered_keys(),
                    n == ks.len(),
                    crate::matching::regex_compiles(p@),
                    i <= n,
                    matched@.len() == i,
                    forall|j: int|
                        0 <= j < i ==> (#[trigger] matched@[j]) == crate::matching::regex_matches(
                            p@,
                            join_path(ks[j]),
                        ),
                decreases n - i,
            {
                let joined = vec_to_string(&join_components(self.entry_parts(i)));
                let hit = crate::matching::regex_is_match(p, joined.as_str());
                matched.push(hit);
                i = i + 1;
            }
        }
        let mut out: Vec<String> = Vec::new();
        let mut i: usize = 0;
        proof {
            assert(ks.take(0) =~= Seq::<PathKey>::empty());
            assert(strings_view(out@) =~= Seq::<Seq<char>>::empty());
        }
        while i < n
            invariant
                self.wf(),
                m == self.nodes(),
                ks == self.ordered_keys(),
                n == ks.len(),
                pat == (match pattern {
                    Some(p) => Some(p@),
                    None => None,
                }),
                pattern is Some ==> matched@.len() == n,
                pattern matches Some(p) ==> forall|j: int|
                    0 <= j < n ==> (#[trigger] matched@[j]) == crate::matching::regex_matches(
                        p@,
                        join_path(ks[j]),
                    ),
                i <= n,
                f == (|q: PathKey|
                    if shown(m, hidden@, pat, q) {
                        Some(join_path(q))
                    } else {
                        None
                    }),
                strings_view(out@) == ks.take(i as int).filter_map(f),
            decreases n - i,
        {
            proof {
                ks.lemma_filter_map_take_succ(f, i as int);
                self.lemma_wf_facts();
            }
            let ghost k = ks[i as int];
            let mut ok = self.entry_visible(i);
            if ok {
                let node = self.entry_node(i);
                let mut h: usize = 0;
                while h < hidden.len()
                    invariant
                        h <= hidden@.len(),
                        ok ==> forall|t: int| 0 <= t < h ==> hidden@[t] != node.diff_type,
                        !ok ==> hidden@.contains(node.diff_type),
                    decreases hidden@.len() - h,
                {
                    if hidden[h] == node.diff_type {
                        ok = false;
                    }
                    h = h + 1;
                }
                proof {
                    if ok {
                        assert(!hidden@.contains(node.diff_type));
                    }
                }
            }
            if ok && pattern.is_some() {
                let mut found = false;
                let mut j: usize = i;
                while j < n && !found && removes(self.entry_parts(i), true, self.entry_parts(j))
                    invariant
                        self.wf(),
                        ks == self.ordered_keys(),
                        n == ks.len(),
                        i < n,
                        i <= j <= n,
                        pattern is Some,
                        pattern is Some ==> matched@.len() == n,
                        found ==> exists|d: int| i <= d < n && is_prefix(ks[i as int], ks[d])
                            && #[trigger] matched@[d],
                        !found ==> forall|d: int|
                            i <= d < j ==> !(is_prefix(ks[i as int], ks[d]) && #[trigger] matched@[d]),
                        forall|d: int| i <= d < j ==> is_prefix(ks[i as int], #[trigger] ks[d]),
                    decreases n - j,
                {
                    proof {
                        lemma_prefix_iff_removed(ks[i as int], ks[j as int]);
                    }
                    if matched[j] {
                        found = true;
                    }
                    j = j + 1;
                }
                proof {
                    let pp = pat.unwrap();
                    let below = exists|d: PathKey|
                        m.contains_key(d) && is_prefix(k, d) && #[trigger] crate::matching::regex_matches(
                            pp,
                            join_path(d),
                        );
                    if found {
                        let d = choose|d: int| i <= d < n && is_prefix(ks[i as int], ks[d]) && #[trigger] matched@[d];
                        assert(crate::matching::regex_matches(pp, join_path(ks[d])));
                        assert(below);
                    } else if below {
                        let d = choose|d: PathKey|
                            m.contains_key(d) && is_prefix(k, d) && #[trigger] crate::matching::regex_matches(
                                pp,
                                join_path(d),
                            );
                        assert(ks.contains(d));
                        let dj = choose|dj: int| 0 <= dj < ks.len() && ks[dj] == d;
                        assert(matched@[dj]);
                        if dj < i {
                            if k.len() < d.len() {
                                lemma_prefix_path_lt(k, d);
                                lemma_path_lt_asym(d, k);
                            } else {
                                assert(k =~= d);
                                lemma_path_lt_irrefl(k);
                            }
                        } else if dj >= j {
                            assert(j < n);
                            lemma_prefix_iff_removed(k, ks[j as int]);
                            assert(!is_prefix(k, ks[j as int]));
                            assert(path_lt(k, ks[j as int])) by {
                                if j > i {
                                } else {
                                    assert(k.take(k.len() as int) =~= k);
                                }
                            }
                            if dj > j {
                                crate::paths::lemma_path_lt_below(k, ks[j as int], d);
                                lemma_path_lt_asym(ks[j as int], d);
                            }
                        }
                    }
                }
                ok = found;
            }
            if ok {
                let joined = join_components(self.entry_parts(i));
                let ghost before = out@;
                out.push(vec_to_string(&joined));
                assert(strings_view(out@) =~= strings_view(before).push(joined@));
            }
            i = i + 1;
        }
        proof {
            assert(ks.take(n as int) =~= ks);
        }
        out
    }

    /// Rewrites every entry by `op`.
    fn transform_all(&mut self, op: NodeOp)
        requires
            old(self).wf(),
        ensures
            final(self).wf(),
            final(self).root_view() == old(self).root_view(),
            final(self).nodes() == transform_map(old(self).nodes(), op),
            final(self).ordered_keys() == old(self).ordered_keys(),
    {
        let ghost m0 = self.nodes();
        let ghost ks = self.ordered_keys();
        proof {
            self.lemma_wf_facts();
            assert forall|a: int, b: int| 0 <= a < b < ks.len() implies ks[a] != ks[b] by {
                if ks[a] == ks[b] {
                    lemma_path_lt_irrefl(ks[a]);
                }
            }
            assert(ks.take(0) =~= Seq::<PathKey>::empty());
            assert(self.nodes() =~= transform_upto(m0, ks, 0, op));
        }
        let n = self.entries.len();
        let mut i: usize = 0;
        while i < n
            invariant
                self.wf(),
                self.root_view() == old(self).root_view(),
                m0 == old(self).nodes(),
                ks == self.ordered_keys(),
                ks == old(self).ordered_keys(),
                n == ks.len(),
                i <= n,
                forall|a: int, b: int| 0 <= a < b < ks.len() ==> ks[a] != ks[b],
                self.nodes() == transform_upto(m0, ks, i as int, op),
            decreases n - i,
        {
            let mut nd = self.entries[i].node.clone();
            match op {
                NodeOp::CollapseDirs => {
                    if nd.info.entry_type == TarEntryType::Directory {
                        nd.collapsed = true;
                    }
                },
                NodeOp::Expand => {
                    nd.collapsed = false;
                },
                NodeOp::Mark(d) => {
                    nd.diff_type = d;
                },
            }
            proof {
                lemma_alist_at(self.alist(), i as int);
                assert(!ks.take(i as int).contains(ks[i as int]));
            }
            self.set_node(i, nd);
            proof {
                assert(self.ordered_keys() =~= ks);
                lemma_take_push_contains(ks, i as int);
                assert(self.nodes() =~= transform_upto(m0, ks, i + 1, op));
            }
            i = i + 1;
        }
        proof {
            assert(ks.take(n as int) =~= ks);
            assert(self.nodes() =~= transform_map(m0, op));
        }
    }

    /// Collapses every directory entry.
    pub fn collapse_all(&mut self)
        requires
            old(self).wf(),
        ensures
            final(self).wf(),
            final(self).root_view() == old(self).root_view(),
            final(self).nodes() == transform_map(old(self).nodes(), NodeOp::CollapseDirs),
    {
        self.transform_all(NodeOp::CollapseDirs);
    }

    /// Expands every entry.
    pub fn expand_all(&mut self)
        requires
            old(self).wf(),
        ensures
            final(self).wf(),
            final(self).root_view() == old(self).root_view(),
            final(self).nodes() == transform_map(old(self).nodes(), NodeOp::Expand),
    {
        self.transform_all(NodeOp::Expand);
    }

    /// Gives every entry the mark `diff_type`.
    pub fn mark_all(&mut self, diff_type: DiffType)
        requires
            old(self).wf(),
        ensures
            final(self).wf(),
            final(self).root_view() == old(self).root_view(),
            final(self).nodes() == transform_map(old(self).nodes(), NodeOp::Mark(diff_type)),
    {
        self.transform_all(NodeOp::Mark(diff_type));
    }

    /// Collapses the entry at `path`, if there is one.
    pub fn collapse(&mut self, path: &str)
        requires
            old(self).wf(),
        ensures
            final(self).wf(),
            final(self).root_view() == old(self).root_view(),
            trim_start_char(path@, '/').len() > 0 && old(self).nodes().contains_key(path_key(path@))
                ==> final(self).nodes() == old(self).nodes().insert(
                path_key(path@),
                NodeView { collapsed: true, ..old(self).nodes()[path_key(path@)] },
            ),
            !(trim_start_char(path@, '/').len() > 0 && old(self).nodes().contains_key(
                path_key(path@),
            )) ==> final(self).nodes() == old(self).nodes(),
    {
        let chars = str_to_chars(path);
        let trimmed = trim_start_matches_char(&chars, '/');
        if trimmed.len() == 0 {
            return;
        }
        let parts = split_components(&trimmed);
        match self.find(&parts) {
            Some(i) => {
                proof {
                    lemma_alist_at(self.alist(), i as int);
                }
                let mut nd = self.entries[i].node.clone();
                nd.collapsed = true;
                self.set_node(i, nd);
            },
            None => {},
        }
    }

    /// Whether the last component of `path` starts with `.wh.`.
    pub fn is_whiteout_path(path: &str) -> (r: bool)
        ensures
            r == is_whiteout_key(split_path(path@)),
    {
        let chars = str_to_chars(path);
        let parts = split_components(&chars);
        let n = parts.len();
        assert(key_of(parts@).len() == parts@.len());
        crate::text::starts_with(&parts[n - 1], &whiteout_prefix_chars())
    }

    /// For a whiteout path, the path it removes (for the opaque marker, the
    /// directory it empties); `None` for any other path.
    pub fn whiteout_target_path(path: &str) -> (r: Option<String>)
        ensures
            match r {
                Some(t) => is_whiteout_key(split_path(path@)) && t@ == join_path(
                    whiteout_target(split_path(path@)),
                ),
                None => !is_whiteout_key(split_path(path@)),
            },
    {
        let chars = str_to_chars(path);
        let parts = split_components(&chars);
        let n = parts.len();
        let ghost k = key_of(parts@);
        assert(k.len() == parts@.len());
        if !crate::text::starts_with(&parts[n - 1], &whiteout_prefix_chars()) {
            return None;
        }
        let mut target = prefix_parts(&parts, n - 1);
        assert(k.take(n - 1) =~= k.drop_last());
        let last = &parts[n - 1];
        if !crate::text::chars_eq(last, &opaque_marker_chars()) {
            let name = crate::text::sub_chars(last, 4, last.len());
            target.push(name);
            assert(key_of(target@) =~= k.drop_last().push(k.last().skip(4)));
        }
        Some(vec_to_string(&join_components(&target)))
    }

    /// Whether the `i`-th entry's name starts with `.wh.`.
    pub fn entry_is_whiteout(&self, i: usize) -> (r: bool)
        requires
            self.wf(),
            i < self.ordered_keys().len(),
        ensures
            r == is_whiteout_key(self.ordered_keys()[i as int]),
    {
        proof {
            self.lemma_wf_facts();
        }
        let parts = &self.entries[i].parts;
        let n = parts.len();
        assert(self.nodes().contains_key(self.ordered_keys()[i as int]));
        assert(key_of(parts@).len() == parts@.len());
        crate::text::starts_with(&parts[n - 1], &whiteout_prefix_chars())
    }

    /// The `i`-th entry's path, joined with `/`.
    pub fn entry_path(&self, i: usize) -> (r: Vec<char>)
        requires
            i < self.ordered_keys().len(),
        ensures
            r@ == join_path(self.ordered_keys()[i as int]),
    {
        join_components(&self.entries[i].parts)
    }

    /// The path that the `i`-th entry, a whiteout, removes, joined with `/`.
    pub fn entry_whiteout_target(&self, i: usize) -> (r: Vec<char>)
        requires
            i < self.ordered_keys().len(),
            is_whiteout_key(self.ordered_keys()[i as int]),
        ensures
            r@ == join_path(whiteout_target(self.ordered_keys()[i as int])),
    {
        let (t, _) = self.whiteout_removal(i);
        join_components(&t)
    }
}

/// Whether removing below `k` (and `k` itself when `inclusive`) removes `q`.
pub open spec fn removed_by(k: PathKey, inclusive: bool, q: PathKey) -> bool {
    is_strict_prefix(k, q) || (inclusive && q == k)
}

/// A removed key takes everything below it along.
pub proof fn lemma_removed_by_prefix(k: PathKey, inclusive: bool, q: PathKey, n: int)
    requires
        1 <= n < q.len(),
        removed_by(k, inclusive, q.take(n)),
    ensures
        removed_by(k, inclusive, q),
{
    assert(q.take(n).take(k.len() as int) =~= q.take(k.len() as int));
}

/// Being at or below `k` is what an inclusive removal takes.
pub proof fn lemma_prefix_iff_removed(k: PathKey, q: PathKey)
    ensures
        is_prefix(k, q) == removed_by(k, true, q),
{
    if is_prefix(k, q) && k.len() == q.len() {
        assert(q.take(q.len() as int) =~= q);
    }
    if q == k {
        assert(k.take(k.len() as int) =~= k);
    }
}

/// Whether `q` lies strictly below `k` (or is `k`, when `inclusive`).
fn removes(k: &Vec<Vec<char>>, inclusive: bool, q: &Vec<Vec<char>>) -> (r: bool)
    ensures
        r == removed_by(key_of(k@), inclusive, key_of(q@)),
{
    if q.len() < k.len() {
        return false;
    }
    if q.len() == k.len() {
        return inclusive && path_eq(k, q);
    }
    let mut i: usize = 0;
    while i < k.len()
        invariant
            k@.len() < q@.len(),
            i <= k@.len(),
            forall|j: int| 0 <= j < i ==> k@[j]@ == q@[j]@,
        decreases k@.len() - i,
    {
        if !crate::text::chars_eq(&k[i], &q[i]) {
            assert(key_of(q@).take(k@.len() as int)[i as int] != key_of(k@)[i as int]);
            return false;
        }
        i = i + 1;
    }
    assert(key_of(q@).take(k@.len() as int) =~= key_of(k@));
    true
}

/// A copy of a component vector.
pub(crate) fn clone_parts(p: &Vec<Vec<char>>) -> (r: Vec<Vec<char>>)
    ensures
        key_of(r@) == key_of(p@),
{
    let r = prefix_parts(p, p.len());
    assert(key_of(p@).take(p@.len() as int) =~= key_of(p@));
    r
}

/// A copy of the first `len` components.
pub(crate) fn prefix_parts(p: &Vec<Vec<char>>, len: usize) -> (r: Vec<Vec<char>>)
    requires
        len <= p@.len(),
    ensures
        key_of(r@) == key_of(p@).take(len as int),
{
    let mut r: Vec<Vec<char>> = Vec::new();
    let mut i: usize = 0;
    while i < len
        invariant
            len <= p@.len(),
            i <= len,
            r@.len() == i,
            key_of(r@) == key_of(p@).take(i as int),
        decreases p@.len() - i,
    {
        let ghost before = r@;
        let c = crate::text::sub_chars(&p[i], 0, p[i].len());
        assert(c@ =~= p@[i as int]@);
        r.push(c);
        assert forall|j: int| 0 <= j < i + 1 implies key_of(r@)[j] == key_of(p@).take(i + 1)[j] by {
            if j < i {
                assert(r@[j] == before[j]);
                assert(key_of(before)[j] == key_of(p@).take(i as int)[j]);
            }
        }
        assert(key_of(r@) =~= key_of(p@).take(i + 1));
        i = i + 1;
    }
    r
}

impl TreeEntry {
    pub(crate) fn clone_entry(&self) -> (r: TreeEntry)
        ensures
            r.kv() == self.kv(),
    {
        TreeEntry { parts: clone_parts(&self.parts), node: self.node.clone() }
    }
}


/// A split path has at least one component.
pub proof fn lemma_split_acc_nonempty(cur: Seq<char>, rest: Seq<char>)
    ensures
        split_acc(cur, rest).len() >= 1,
    decreases rest.len(),
{
    if rest.len() > 0 {
        if rest[0] == '/' {
            lemma_split_acc_nonempty(Seq::empty(), rest.drop_first());
        } else {
            lemma_split_acc_nonempty(cur.push(rest[0]), rest.drop_first());
        }
    }
}

/// Reading back a write: once a path that names an entry has been added,
/// looking that path up finds exactly the node that was added.
pub proof fn law_get_after_add(root: NodeView, m: Map<PathKey, NodeView>, path: Seq<char>, info: InfoView)
    requires
        trim_start_char(path, '/').len() > 0,
    ensures
        ({
            let leaf = fresh_node(trim_start_char(path, '/'), info);
            lookup(root, add_path_map(m, path_key(path), leaf), path) == Some(leaf)
        }),
{
    let k = path_key(path);
    lemma_split_acc_nonempty(Seq::empty(), trim_start_char(path, '/'));
    assert(k.take(k.len() as int) =~= k);
}

/// Adding a path creates every directory above it: each proper ancestor of
/// the added key is an entry afterwards.
pub proof fn law_add_creates_parents(m: Map<PathKey, NodeView>, k: PathKey, leaf: NodeView, n: int)
    requires
        1 <= n < k.len(),
    ensures
        add_path_map(m, k, leaf).contains_key(k.take(n)),
{
    assert(k.take(n).len() == n);
    assert(k.take(n as int) =~= k.take(n).take(n));
}

/// Adding a path leaves alone every entry that is neither above nor below it.
pub proof fn law_add_keeps_unrelated(m: Map<PathKey, NodeView>, k: PathKey, leaf: NodeView, q: PathKey)
    requires
        m.contains_key(q),
        !is_prefix(q, k),
        !is_prefix(k, q),
    ensures
        add_path_map(m, k, leaf).contains_key(q),
        add_path_map(m, k, leaf)[q] == m[q],
{
    assert(k.take(k.len() as int) =~= k);
}

/// A tree compared with itself has every entry marked unmodified, and no
/// entry is added or dropped.
pub proof fn law_compare_with_self(m: Map<PathKey, NodeView>)
    ensures
        compare_map(m, m).dom() == m.dom(),
        forall|q: PathKey| #[trigger] m.contains_key(q) ==> compare_map(m, m)[q] == with_diff(m[q], DiffType::Unmodified),
{
    assert(compare_map(m, m).dom() =~= m.dom());
}

/// A tree compared with an empty reference has every entry marked added.
pub proof fn law_compare_with_empty(m: Map<PathKey, NodeView>)
    ensures
        compare_map(m, Map::empty()).dom() == m.dom(),
        forall|q: PathKey| #[trigger] m.contains_key(q) ==> compare_map(m, Map::empty())[q] == with_diff(m[q], DiffType::Added),
{
    assert(compare_map(m, Map::empty()).dom() =~= m.dom());
}

/// Comparing marks an entry removed exactly when only the reference has it;
/// the marked tree holds the entries of both.
pub proof fn law_compare_removed(mine: Map<PathKey, NodeView>, reference: Map<PathKey, NodeView>, q: PathKey)
    ensures
        compare_map(mine, reference).contains_key(q) <==> mine.contains_key(q) || reference.contains_key(q),
        compare_map(mine, reference).contains_key(q) ==> (compare_map(mine, reference)[q].diff_type
            == DiffType::Removed <==> !mine.contains_key(q)),
        mine.contains_key(q) && !reference.contains_key(q) ==> compare_map(mine, reference)[q].diff_type
            == DiffType::Added,
{
}

/// Laying an empty tree over another changes nothing.
pub proof fn law_stack_empty_upper(lower: Map<PathKey, NodeView>)
    ensures
        stack_map(lower, Map::empty()) == lower,
{
    assert forall|q: PathKey| lower.contains_key(q) implies !exists|w: PathKey| #[trigger] wipes(Map::<PathKey, NodeView>::empty(), w, q) by {
    }
    assert(stack_map(lower, Map::empty()) =~= lower);
}

/// What the upper tree holds (its whiteout files aside) wins over the lower tree.
pub proof fn law_stack_upper_wins(lower: Map<PathKey, NodeView>, upper: Map<PathKey, NodeView>, q: PathKey)
    requires
        upper.contains_key(q),
        !(is_leaf(upper, q) && is_whiteout_key(q)),
    ensures
        stack_map(lower, upper).contains_key(q),
        stack_map(lower, upper)[q] == upper[q],
{
}

/// A whiteout file hides what it names in the lower tree, together with
/// everything below it, unless the upper tree itself brings the path back;
/// the whiteout file itself never shows.
pub proof fn law_whiteout_hides(lower: Map<PathKey, NodeView>, upper: Map<PathKey, NodeView>, w: PathKey, q: PathKey)
    requires
        is_leaf(upper, w),
        is_whiteout_key(w),
        removed_by(whiteout_target(w), !is_opaque_key(w), q),
        !upper.contains_key(q),
    ensures
        !stack_map(lower, upper).contains_key(q),
{
    assert(wipes(upper, w, q));
}


/// Expanding everything undoes collapsing everything: the entries end up as
/// if they had only been expanded.
pub proof fn law_expand_after_collapse(m: Map<PathKey, NodeView>)
    ensures
        transform_map(transform_map(m, NodeOp::CollapseDirs), NodeOp::Expand) == transform_map(m, NodeOp::Expand),
{
    assert(transform_map(transform_map(m, NodeOp::CollapseDirs), NodeOp::Expand) =~= transform_map(m, NodeOp::Expand));
}

/// Expanding a tree leaves no entry collapsed, and changes nothing else.
pub proof fn law_expand_clears(m: Map<PathKey, NodeView>, q: PathKey)
    requires
        m.contains_key(q),
    ensures
        transform_map(m, NodeOp::Expand).contains_key(q),
        !transform_map(m, NodeOp::Expand)[q].collapsed,
        transform_map(m, NodeOp::Expand)[q] == (NodeView { collapsed: false, ..m[q] }),
{
}


/// An entry that both a tree and its reference hold is marked modified when
/// its content, type, mode or owner differ from the reference's, and
/// unmodified when they all agree.
pub proof fn law_compare_marks_changes(mine: Map<PathKey, NodeView>, reference: Map<PathKey, NodeView>, q: PathKey)
    requires
        mine.contains_key(q),
        reference.contains_key(q),
    ensures
        mine[q].info.content_hash != reference[q].info.content_hash ==> compare_map(mine, reference)[q].diff_type
            == DiffType::Modified,
        mine[q].info.entry_type != reference[q].info.entry_type ==> compare_map(mine, reference)[q].diff_type
            == DiffType::Modified,
        mine[q].info.mode != reference[q].info.mode || mine[q].info.uid != reference[q].info.uid
            || mine[q].info.gid != reference[q].info.gid ==> compare_map(mine, reference)[q].diff_type
            == DiffType::Modified,
        mine[q].info == reference[q].info ==> compare_map(mine, reference)[q].diff_type == DiffType::Unmodified,
{
}

} // verus!
