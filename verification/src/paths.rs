//! Paths inside an image: splitting into components, joining, and the order in
//! which a file tree lists its entries (component by component, names compared
//! by character code).
use vstd::prelude::*;
use crate::text::{chars_eq, has_char};

verus! {

/// A path as the sequence of its components.
pub type PathKey = Seq<Seq<char>>;

/// Splitting helper: `cur` is the component read so far, `rest` the unread input.
pub open spec fn split_acc(cur: Seq<char>, rest: Seq<char>) -> PathKey
    decreases rest.len(),
{
    if rest.len() == 0 {
        seq![cur]
    } else if rest[0] == '/' {
        seq![cur] + split_acc(Seq::empty(), rest.drop_first())
    } else {
        split_acc(cur.push(rest[0]), rest.drop_first())
    }
}

/// The components of `s` separated by `/` (as `str::split('/')` yields them).
pub open spec fn split_path(s: Seq<char>) -> PathKey {
    split_acc(Seq::empty(), s)
}

/// The components joined with `/`.
pub open spec fn join_path(parts: PathKey) -> Seq<char>
    decreases parts.len(),
{
    if parts.len() == 0 {
        Seq::empty()
    } else if parts.len() == 1 {
        parts[0]
    } else {
        join_path(parts.drop_last()) + seq!['/'] + parts.last()
    }
}

/// No component holds a `/`.
pub open spec fn components_clean(parts: PathKey) -> bool {
    forall|i: int| 0 <= i < parts.len() ==> !has_char(#[trigger] parts[i], '/')
}

/// The abstract key of a vector of components.
pub open spec fn key_of(v: Seq<Vec<char>>) -> PathKey {
    v.map_values(|c: Vec<char>| c@)
}

/// Character-code order on names.
pub open spec fn str_lt(a: Seq<char>, b: Seq<char>) -> bool
    decreases a.len(),
{
    if a.len() == 0 {
        b.len() > 0
    } else if b.len() == 0 {
        false
    } else if a[0] != b[0] {
        (a[0] as u32) < (b[0] as u32)
    } else {
        str_lt(a.drop_first(), b.drop_first())
    }
}

/// Tree order on paths: component by component, a directory before its contents.
pub open spec fn path_lt(a: PathKey, b: PathKey) -> bool
    decreases a.len(),
{
    if a.len() == 0 {
        b.len() > 0
    } else if b.len() == 0 {
        false
    } else if a[0] != b[0] {
        str_lt(a[0], b[0])
    } else {
        path_lt(a.drop_first(), b.drop_first())
    }
}

/// `p` is a proper prefix of `q`: `q` lies strictly below `p`.
pub open spec fn is_strict_prefix(p: PathKey, q: PathKey) -> bool {
    p.len() < q.len() && q.take(p.len() as int) == p
}

/// `p` is a prefix of `q` (`q` is `p` or lies below it).
pub open spec fn is_prefix(p: PathKey, q: PathKey) -> bool {
    p.len() <= q.len() && q.take(p.len() as int) == p
}

pub proof fn lemma_str_lt_irrefl(a: Seq<char>)
    ensures
        !str_lt(a, a),
    decreases a.len(),
{
    if a.len() > 0 {
        lemma_str_lt_irrefl(a.drop_first());
    }
}

pub proof fn lemma_str_lt_trans(a: Seq<char>, b: Seq<char>, c: Seq<char>)
    requires
        str_lt(a, b),
        str_lt(b, c),
    ensures
        str_lt(a, c),
    decreases a.len(),
{
    if a.len() > 0 && b.len() > 0 && c.len() > 0 {
        if a[0] == b[0] && b[0] == c[0] {
            lemma_str_lt_trans(a.drop_first(), b.drop_first(), c.drop_first());
        }
    }
}

pub proof fn lemma_str_lt_total(a: Seq<char>, b: Seq<char>)
    requires
        a != b,
    ensures
        str_lt(a, b) || str_lt(b, a),
    decreases a.len(),
{
    if a.len() > 0 && b.len() > 0 {
        if a[0] == b[0] {
            if a.drop_first() == b.drop_first() {
                assert(a =~= seq![a[0]] + a.drop_first());
                assert(b =~= seq![b[0]] + b.drop_first());
            }
            lemma_str_lt_total(a.drop_first(), b.drop_first());
        } else {
            vstd::utf8::char_u32_cast(a[0], a[0] as u32);
            vstd::utf8::char_u32_cast(b[0], b[0] as u32);
        }
    } else if a.len() == 0 && b.len() == 0 {
        assert(a =~= b);
    }
}

pub proof fn lemma_path_lt_irrefl(a: PathKey)
    ensures
        !path_lt(a, a),
    decreases a.len(),
{
    if a.len() > 0 {
        lemma_path_lt_irrefl(a.drop_first());
    }
}

pub proof fn lemma_path_lt_trans(a: PathKey, b: PathKey, c: PathKey)
    requires
        path_lt(a, b),
        path_lt(b, c),
    ensures
        path_lt(a, c),
    decreases a.len(),
{
    if a.len() > 0 && b.len() > 0 && c.len() > 0 {
        if a[0] == b[0] && b[0] == c[0] {
            lemma_path_lt_trans(a.drop_first(), b.drop_first(), c.drop_first());
        } else if a[0] == b[0] {
        } else if b[0] == c[0] {
        } else {
            lemma_str_lt_trans(a[0], b[0], c[0]);
            if a[0] == c[0] {
                lemma_str_lt_irrefl(a[0]);
            }
        }
    }
}

pub proof fn lemma_path_lt_total(a: PathKey, b: PathKey)
    requires
        a != b,
    ensures
        path_lt(a, b) || path_lt(b, a),
    decreases a.len(),
{
    if a.len() > 0 && b.len() > 0 {
        if a[0] == b[0] {
            if a.drop_first() == b.drop_first() {
                assert(a =~= seq![a[0]] + a.drop_first());
                assert(b =~= seq![b[0]] + b.drop_first());
            }
            lemma_path_lt_total(a.drop_first(), b.drop_first());
        } else {
            lemma_str_lt_total(a[0], b[0]);
        }
    } else if a.len() == 0 && b.len() == 0 {
        assert(a =~= b);
    }
}

pub proof fn lemma_path_lt_asym(a: PathKey, b: PathKey)
    requires
        path_lt(a, b),
    ensures
        !path_lt(b, a),
{
    if path_lt(b, a) {
        lemma_path_lt_trans(a, b, a);
        lemma_path_lt_irrefl(a);
    }
}

/// A path comes before everything below it.
pub proof fn lemma_prefix_path_lt(p: PathKey, q: PathKey)
    requires
        is_strict_prefix(p, q),
    ensures
        path_lt(p, q),
    decreases p.len(),
{
    if p.len() > 0 {
        assert(q[0] == q.take(p.len() as int)[0]);
        assert(q.drop_first().take(p.len() - 1) =~= p.drop_first());
        lemma_prefix_path_lt(p.drop_first(), q.drop_first());
    }
}

/// If `a < b` and `b` is not below `a`, everything below `a` also precedes `b`.
pub proof fn lemma_path_lt_below(a: PathKey, b: PathKey, c: PathKey)
    requires
        path_lt(a, b),
        !is_prefix(a, b),
        is_prefix(a, c),
    ensures
        path_lt(c, b),
    decreases a.len(),
{
    assert(a.len() > 0) by {
        if a.len() == 0 {
            assert(b.take(0) =~= a);
        }
    }
    assert(c[0] == c.take(a.len() as int)[0]);
    if b.len() > 0 && a[0] == b[0] {
        assert(c.drop_first().take(a.len() - 1) =~= a.drop_first());
        if is_prefix(a.drop_first(), b.drop_first()) {
            assert(b.take(a.len() as int) =~= seq![b[0]] + b.drop_first().take(a.len() - 1));
            assert(a =~= seq![a[0]] + a.drop_first());
        }
        lemma_path_lt_below(a.drop_first(), b.drop_first(), c.drop_first());
    }
}

/// Whether `a` precedes `b` in character-code order.
pub fn str_less(a: &Vec<char>, b: &Vec<char>) -> (r: bool)
    ensures
        r == str_lt(a@, b@),
{
    let mut i: usize = 0;
    assert(a@.skip(0) =~= a@);
    assert(b@.skip(0) =~= b@);
    loop
        invariant
            i <= a@.len(),
            i <= b@.len(),
            str_lt(a@, b@) == str_lt(a@.skip(i as int), b@.skip(i as int)),
        decreases a@.len() - i,
    {
        if i == a.len() {
            return i < b.len();
        }
        if i == b.len() {
            return false;
        }
        let x = a[i];
        let y = b[i];
        if x != y {
            return (x as u32) < (y as u32);
        }
        assert(a@.skip(i as int).drop_first() =~= a@.skip(i + 1));
        assert(b@.skip(i as int).drop_first() =~= b@.skip(i + 1));
        i = i + 1;
    }
}

/// Whether path `a` precedes path `b` in tree order.
pub fn path_less(a: &Vec<Vec<char>>, b: &Vec<Vec<char>>) -> (r: bool)
    ensures
        r == path_lt(key_of(a@), key_of(b@)),
{
    let ghost ka = key_of(a@);
    let ghost kb = key_of(b@);
    let mut i: usize = 0;
    assert(ka.skip(0) =~= ka);
    assert(kb.skip(0) =~= kb);
    loop
        invariant
            ka == key_of(a@),
            kb == key_of(b@),
            i <= a@.len(),
            i <= b@.len(),
            path_lt(ka, kb) == path_lt(ka.skip(i as int), kb.skip(i as int)),
        decreases a@.len() - i,
    {
        if i == a.len() {
            return i < b.len();
        }
        if i == b.len() {
            return false;
        }
        let same = chars_eq(&a[i], &b[i]);
        if !same {
            return str_less(&a[i], &b[i]);
        }
        assert(ka.skip(i as int).drop_first() =~= ka.skip(i + 1));
        assert(kb.skip(i as int).drop_first() =~= kb.skip(i + 1));
        i = i + 1;
    }
}

/// Whether two component vectors name the same path.
pub fn path_eq(a: &Vec<Vec<char>>, b: &Vec<Vec<char>>) -> (r: bool)
    ensures
        r == (key_of(a@) == key_of(b@)),
{
    if a.len() != b.len() {
        assert(key_of(a@).len() != key_of(b@).len());
        return false;
    }
    let mut i: usize = 0;
    while i < a.len()
        invariant
            a@.len() == b@.len(),
            i <= a@.len(),
            forall|j: int| 0 <= j < i ==> a@[j]@ == b@[j]@,
        decreases a@.len() - i,
    {
        if !chars_eq(&a[i], &b[i]) {
            assert(key_of(a@)[i as int] != key_of(b@)[i as int]);
            return false;
        }
        i = i + 1;
    }
    assert(key_of(a@) =~= key_of(b@));
    true
}

/// Splits a path on `/` into its components.
pub fn split_components(s: &Vec<char>) -> (r: Vec<Vec<char>>)
    ensures
        key_of(r@) == split_path(s@),
        r@.len() >= 1,
        components_clean(key_of(r@)),
{
    let mut done: Vec<Vec<char>> = Vec::new();
    let mut cur: Vec<char> = Vec::new();
    let mut i: usize = 0;
    assert(s@.skip(0) =~= s@);
    while i < s.len()
        invariant
            i <= s@.len(),
            split_path(s@) == key_of(done@) + split_acc(cur@, s@.skip(i as int)),
            components_clean(key_of(done@)),
            !has_char(cur@, '/'),
        decreases s@.len() - i,
    {
        let c = s[i];
        let ghost rest = s@.skip(i as int);
        assert(rest[0] == c);
        assert(rest.drop_first() =~= s@.skip(i + 1));
        if c == '/' {
            let ghost old_done = key_of(done@);
            let ghost tail = split_acc(Seq::empty(), s@.skip(i + 1));
            done.push(cur);
            cur = Vec::new();
            assert(key_of(done@) =~= old_done.push(key_of(done@).last()));
            assert(old_done + (seq![key_of(done@).last()] + tail) =~= key_of(done@) + tail);
            assert(cur@ =~= Seq::<char>::empty());
        } else {
            let ghost old_cur = cur@;
            cur.push(c);
            assert(cur@ =~= old_cur.push(c));
            assert forall|j: int| 0 <= j < cur@.len() implies cur@[j] != '/' by {
                if j < old_cur.len() {
                    assert(cur@[j] == old_cur[j]);
                }
            }
        }
        i = i + 1;
    }
    let ghost old_done = key_of(done@);
    assert(s@.skip(i as int) =~= Seq::<char>::empty());
    done.push(cur);
    assert(key_of(done@) =~= old_done + seq![key_of(done@).last()]);
    done
}

/// Joins components with `/`.
pub fn join_components(parts: &Vec<Vec<char>>) -> (r: Vec<char>)
    ensures
        r@ == join_path(key_of(parts@)),
{
    let mut r: Vec<char> = Vec::new();
    let mut i: usize = 0;
    while i < parts.len()
        invariant
            i <= parts@.len(),
            r@ == join_path(key_of(parts@).take(i as int)),
        decreases parts@.len() - i,
    {
        let ghost before = r@;
        let ghost k = key_of(parts@).take(i + 1);
        assert(k.drop_last() =~= key_of(parts@).take(i as int));
        if i > 0 {
            r.push('/');
        }
        let comp = &parts[i];
        let mut j: usize = 0;
        let ghost mid = r@;
        while j < comp.len()
            invariant
                i < parts@.len(),
                j <= comp@.len(),
                r@ == mid + comp@.take(j as int),
            decreases comp@.len() - j,
        {
            r.push(comp[j]);
            assert(comp@.take(j + 1) =~= comp@.take(j as int).push(comp@[j as int]));
            j = j + 1;
        }
        assert(comp@.take(comp@.len() as int) =~= comp@);
        assert(k[i as int] == comp@);
        if i == 0 {
            assert(before =~= Seq::<char>::empty());
            assert(r@ =~= k[0]);
        } else {
            assert(r@ =~= before + seq!['/'] + k.last());
        }
        i = i + 1;
    }
    assert(key_of(parts@).take(parts@.len() as int) =~= key_of(parts@));
    r
}

/// The part after the last `/` is determined: where `a/x` and `b/y` are the
/// same text and neither `x` nor `y` holds a `/`, then `x == y` and `a == b`.
pub proof fn lemma_split_at_last_slash(a: Seq<char>, x: Seq<char>, b: Seq<char>, y: Seq<char>)
    requires
        a + seq!['/'] + x == b + seq!['/'] + y,
        !has_char(x, '/'),
        !has_char(y, '/'),
    ensures
        x == y,
        a == b,
{
    let s = a + seq!['/'] + x;
    let t = b + seq!['/'] + y;
    if x.len() < y.len() {
        let k = s.len() - x.len() - 1;
        assert(s[k] == '/');
        assert(y[k - b.len() - 1] == t[k]);
        assert(false);
    } else if y.len() < x.len() {
        let k = t.len() - y.len() - 1;
        assert(t[k] == '/');
        assert(x[k - a.len() - 1] == s[k]);
        assert(false);
    }
    assert(x =~= s.skip(s.len() - x.len()));
    assert(y =~= t.skip(t.len() - y.len()));
    assert(a =~= s.take(a.len() as int));
    assert(b =~= t.take(b.len() as int));
}

/// Joining two or more components writes a `/`.
pub proof fn lemma_join_has_slash(p: PathKey)
    requires
        p.len() >= 2,
    ensures
        has_char(join_path(p), '/'),
{
    let a = join_path(p.drop_last());
    assert((a + seq!['/'] + p.last())[a.len() as int] == '/');
}

/// Different paths are written differently: joining is one to one on
/// non-empty paths whose components hold no `/`.
pub proof fn lemma_join_injective(p: PathKey, q: PathKey)
    requires
        p.len() >= 1,
        q.len() >= 1,
        components_clean(p),
        components_clean(q),
        join_path(p) == join_path(q),
    ensures
        p == q,
    decreases p.len(),
{
    assert(!has_char(p.last(), '/'));
    assert(!has_char(q.last(), '/'));
    if p.len() == 1 && q.len() == 1 {
        assert(p =~= q);
    } else if p.len() == 1 {
        assert(!has_char(p[0], '/'));
        lemma_join_has_slash(q);
    } else if q.len() == 1 {
        assert(!has_char(q[0], '/'));
        lemma_join_has_slash(p);
    } else {
        lemma_split_at_last_slash(join_path(p.drop_last()), p.last(), join_path(q.drop_last()), q.last());
        assert forall|i: int| 0 <= i < p.drop_last().len() implies !has_char(
            #[trigger] p.drop_last()[i],
            '/',
        ) by {
            assert(p.drop_last()[i] == p[i]);
        }
        assert forall|i: int| 0 <= i < q.drop_last().len() implies !has_char(
            #[trigger] q.drop_last()[i],
            '/',
        ) by {
            assert(q.drop_last()[i] == q[i]);
        }
        lemma_join_injective(p.drop_last(), q.drop_last());
        assert(p =~= p.drop_last().push(p.last()));
        assert(q =~= q.drop_last().push(q.last()));
    }
}

} // verus!
