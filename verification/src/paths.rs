//! Unix paths held as text: their components, file names, joining, and the order
//! in which `PathBuf` sorts them.

use vstd::prelude::*;

use crate::text::{
    chars_eq, chars_of, chars_order, compare_chars, copy_range, extend_chars, lemma_chars_order_flip,
    rfind_in, rfind_in_exec, lemma_rfind_in, split_by, split_by_exec, string_of, CharClass, Order,
    flip, lemma_chars_order_equal, lemma_chars_order_less_trans,
};

verus! {

/// One component of a path, as `std::path::Component` has it on Unix.
pub enum Component {
    RootDir,
    CurDir,
    ParentDir,
    Normal(Seq<char>),
}

/// The component one `/`-separated piece stands for: nothing for an empty piece or
/// `.`, `ParentDir` for `..`, a normal component otherwise.
pub open spec fn piece_component(p: Seq<char>) -> Seq<Component> {
    if p.len() == 0 || p == seq!['.'] {
        seq![]
    } else if p == seq!['.', '.'] {
        seq![Component::ParentDir]
    } else {
        seq![Component::Normal(p)]
    }
}

/// The components of the pieces `ps`, in order.
pub open spec fn pieces_components(ps: Seq<Seq<char>>) -> Seq<Component>
    decreases ps.len(),
{
    if ps.len() == 0 {
        seq![]
    } else {
        pieces_components(ps.drop_last()) + piece_component(ps.last())
    }
}

/// The path starts at the root.
pub open spec fn has_root(s: Seq<char>) -> bool {
    s.len() > 0 && s[0] == '/'
}

/// The path is relative and starts with the piece `.`, which `Path` keeps as `CurDir`.
pub open spec fn starts_at_cur_dir(s: Seq<char>) -> bool {
    !has_root(s) && split_by(s, CharClass::Slash, 0)[0] == seq!['.']
}

/// The components of path `s` (`Path::components`).
pub open spec fn components(s: Seq<char>) -> Seq<Component> {
    let ps = split_by(s, CharClass::Slash, 0);
    (if has_root(s) {
        seq![Component::RootDir]
    } else {
        seq![]
    }) + (if starts_at_cur_dir(s) {
        seq![Component::CurDir] + pieces_components(ps.drop_first())
    } else {
        pieces_components(ps)
    })
}

/// The last component of `s` when it is a normal one (`Path::file_name`).
pub open spec fn file_name_of(s: Seq<char>) -> Option<Seq<char>> {
    let c = components(s);
    if c.len() > 0 && c.last() is Normal {
        Some(c.last()->Normal_0)
    } else {
        None
    }
}

/// A file name split at its last `.` into stem and extension; a name whose only
/// `.` is its first character, or that has none, is all stem.
pub open spec fn split_name(name: Seq<char>) -> (Seq<char>, Option<Seq<char>>) {
    let k = rfind_in(name, CharClass::Dot, name.len() as int);
    if k <= 0 {
        (name, None)
    } else {
        (name.subrange(0, k), Some(name.subrange(k + 1, name.len() as int)))
    }
}

/// `Path::file_stem`.
pub open spec fn stem_of(s: Seq<char>) -> Option<Seq<char>> {
    match file_name_of(s) {
        Some(n) => Some(split_name(n).0),
        None => None,
    }
}

/// `Path::extension`.
pub open spec fn extension_of(s: Seq<char>) -> Option<Seq<char>> {
    match file_name_of(s) {
        Some(n) => split_name(n).1,
        None => None,
    }
}

/// `base` joined with the relative path `rel` (`Path::join`): a `/` goes between
/// them unless `base` is empty or already ends with one.
pub open spec fn joined(base: Seq<char>, rel: Seq<char>) -> Seq<char> {
    if base.len() == 0 || base.last() == '/' {
        base + rel
    } else {
        base + seq!['/'] + rel
    }
}

/// One component of a path, held for comparing.
pub enum PathPart {
    Root,
    Cur,
    Parent,
    Normal(Vec<char>),
}

impl PathPart {
    /// The component this part stands for.
    pub open spec fn component(&self) -> Component {
        match self {
            PathPart::Root => Component::RootDir,
            PathPart::Cur => Component::CurDir,
            PathPart::Parent => Component::ParentDir,
            PathPart::Normal(v) => Component::Normal(v@),
        }
    }
}

/// The components that `parts` stand for.
pub open spec fn parts_view(parts: Seq<PathPart>) -> Seq<Component> {
    parts.map_values(|p: PathPart| p.component())
}

fn push_piece(out: &mut Vec<PathPart>, p: Vec<char>)
    ensures
        parts_view(final(out)@) == parts_view(old(out)@) + piece_component(p@),
{
    let ghost before = old(out)@;
    if p.len() == 0 || (p.len() == 1 && p[0] == '.') {
        assert(p@.len() == 0 || p@ == seq!['.']);
        assert(parts_view(out@) == parts_view(before) + Seq::<Component>::empty());
    } else if p.len() == 2 && p[0] == '.' && p[1] == '.' {
        assert(p@ == seq!['.', '.']);
        out.push(PathPart::Parent);
        assert(parts_view(out@) == parts_view(before).push(Component::ParentDir));
    } else {
        assert(p@ != seq!['.'] && p@ != seq!['.', '.']);
        let ghost pv = p@;
        out.push(PathPart::Normal(p));
        assert(parts_view(out@) == parts_view(before).push(Component::Normal(pv)));
    }
}

/// The components of path `v`.
pub fn components_exec(v: &[char]) -> (r: Vec<PathPart>)
    ensures
        parts_view(r@) == components(v@),
{
    let ps = split_by_exec(v, CharClass::Slash);
    let ghost sp = split_by(v@, CharClass::Slash, 0);
    let mut out: Vec<PathPart> = Vec::new();
    let root = v.len() > 0 && v[0] == '/';
    if root {
        out.push(PathPart::Root);
    }
    assert(sp.len() > 0);
    let cur = !root && chars_eq(ps[0].as_slice(), &['.']);
    assert(['.']@ == seq!['.']);
    let first: usize = if cur {
        out.push(PathPart::Cur);
        1
    } else {
        0
    };
    let ghost head = parts_view(out@);
    assert(head == (if root { seq![Component::RootDir] } else { seq![] }) + (if cur {
        seq![Component::CurDir]
    } else {
        seq![]
    }));
    let ghost body = sp.skip(first as int);
    assert(cur ==> body == sp.drop_first());
    assert(!cur ==> body == sp);
    let n = ps.len();
    for k in first..n
        invariant
            n == ps@.len(),
            n == sp.len(),
            first <= n,
            body == sp.skip(first as int),
            forall|j: int| 0 <= j < ps@.len() ==> #[trigger] ps@[j]@ == sp[j],
            parts_view(out@) == head + pieces_components(body.take(k - first)),
    {
        let p = copy_range(ps[k].as_slice(), 0, ps[k].len());
        assert(ps@[k as int]@.subrange(0, ps@[k as int]@.len() as int) == ps@[k as int]@);
        proof {
            assert(body.take(k + 1 - first).drop_last() == body.take(k - first));
            assert(body.take(k + 1 - first).last() == sp[k as int]);
        }
        push_piece(&mut out, p);
    }
    assert(body.take(n - first) == body);
    out
}

/// The last component of path `v` when it is a normal one.
fn file_name_exec(v: &[char]) -> (r: Option<Vec<char>>)
    ensures
        match r {
            Some(n) => file_name_of(v@) == Some(n@),
            None => file_name_of(v@) is None,
        },
{
    let parts = components_exec(v);
    let n = parts.len();
    if n == 0 {
        return None;
    }
    assert(parts_view(parts@).last() == parts@[n - 1].component());
    match &parts[n - 1] {
        PathPart::Normal(name) => Some(copy_range(name.as_slice(), 0, name.len())),
        _ => None,
    }
}

fn split_name_exec(name: &[char]) -> (r: (Vec<char>, Option<Vec<char>>))
    ensures
        r.0@ == split_name(name@).0,
        match r.1 {
            Some(e) => split_name(name@).1 == Some(e@),
            None => split_name(name@).1 is None,
        },
{
    let found = rfind_in_exec(name, CharClass::Dot);
    proof {
        lemma_rfind_in(name@, CharClass::Dot, name@.len() as int);
    }
    match found {
        Some(k) if k > 0 => {
            assert(k < name.len());
            (copy_range(name, 0, k), Some(copy_range(name, k + 1, name.len())))
        },
        _ => {
            assert(name@.subrange(0, name@.len() as int) == name@);
            (copy_range(name, 0, name.len()), None)
        },
    }
}

/// The file name of `path` without its extension (`Path::file_stem`).
pub fn file_stem(path: &str) -> (r: Option<String>)
    ensures
        match r {
            Some(s) => stem_of(path@) == Some(s@),
            None => stem_of(path@) is None,
        },
{
    let v = chars_of(path);
    match file_name_exec(v.as_slice()) {
        Some(name) => {
            let (stem, _) = split_name_exec(name.as_slice());
            Some(string_of(stem.as_slice()))
        },
        None => None,
    }
}

/// The extension of `path`'s file name (`Path::extension`).
pub fn extension(path: &str) -> (r: Option<String>)
    ensures
        match r {
            Some(s) => extension_of(path@) == Some(s@),
            None => extension_of(path@) is None,
        },
{
    let v = chars_of(path);
    match file_name_exec(v.as_slice()) {
        Some(name) => {
            let (_, ext) = split_name_exec(name.as_slice());
            match ext {
                Some(e) => Some(string_of(e.as_slice())),
                None => None,
            }
        },
        None => None,
    }
}

/// `base` joined with the relative path `rel`.
pub fn join(base: &str, rel: &str) -> (r: String)
    ensures
        r@ == joined(base@, rel@),
{
    let mut v = chars_of(base);
    let n = v.len();
    if n > 0 && v[n - 1] != '/' {
        v.push('/');
    }
    let r = chars_of(rel);
    extend_chars(&mut v, r.as_slice());
    string_of(v.as_slice())
}

/// Where a component kind sorts: `Component`'s variants in declaration order.
pub open spec fn component_rank(c: Component) -> int {
    match c {
        Component::RootDir => 1,
        Component::CurDir => 2,
        Component::ParentDir => 3,
        Component::Normal(_) => 4,
    }
}

/// The order of two components: by kind, then normal ones by their text.
pub open spec fn component_order(a: Component, b: Component) -> Order {
    if component_rank(a) < component_rank(b) {
        Order::Less
    } else if component_rank(a) > component_rank(b) {
        Order::Greater
    } else {
        match (a, b) {
            (Component::Normal(x), Component::Normal(y)) => chars_order(x, y),
            _ => Order::Equal,
        }
    }
}

/// Lexicographic order of two component lists.
pub open spec fn components_order(x: Seq<Component>, y: Seq<Component>) -> Order
    decreases x.len(),
{
    if x.len() == 0 && y.len() == 0 {
        Order::Equal
    } else if x.len() == 0 {
        Order::Less
    } else if y.len() == 0 {
        Order::Greater
    } else {
        match component_order(x[0], y[0]) {
            Order::Equal => components_order(x.drop_first(), y.drop_first()),
            o => o,
        }
    }
}

/// The order of two paths, component by component (`Ord for Path`).
pub open spec fn path_order(a: Seq<char>, b: Seq<char>) -> Order {
    components_order(components(a), components(b))
}

/// Comparing component lists the other way round gives the reverse order.
pub proof fn lemma_components_order_flip(x: Seq<Component>, y: Seq<Component>)
    ensures
        components_order(y, x) == flip(components_order(x, y)),
    decreases x.len(),
{
    if x.len() > 0 && y.len() > 0 {
        match (x[0], y[0]) {
            (Component::Normal(a), Component::Normal(b)) => lemma_chars_order_flip(a, b),
            _ => {},
        }
        lemma_components_order_flip(x.drop_first(), y.drop_first());
    }
}

proof fn lemma_component_order_equal(a: Component, b: Component)
    requires
        component_order(a, b) == Order::Equal,
    ensures
        a == b,
{
    match (a, b) {
        (Component::Normal(x), Component::Normal(y)) => lemma_chars_order_equal(x, y),
        _ => {},
    }
}

proof fn lemma_component_order_less_trans(a: Component, b: Component, c: Component)
    requires
        component_order(a, b) == Order::Less,
        component_order(b, c) == Order::Less,
    ensures
        component_order(a, c) == Order::Less,
{
    match (a, b, c) {
        (Component::Normal(x), Component::Normal(y), Component::Normal(z)) => {
            lemma_chars_order_less_trans(x, y, z)
        },
        _ => {},
    }
}

/// Only equal component lists compare equal.
pub proof fn lemma_components_order_equal(x: Seq<Component>, y: Seq<Component>)
    requires
        components_order(x, y) == Order::Equal,
    ensures
        x == y,
    decreases x.len(),
{
    if x.len() > 0 {
        lemma_component_order_equal(x[0], y[0]);
        lemma_components_order_equal(x.drop_first(), y.drop_first());
        assert(x =~= seq![x[0]] + x.drop_first());
        assert(y =~= seq![y[0]] + y.drop_first());
    }
}

/// The order of component lists is transitive.
pub proof fn lemma_components_order_less_trans(x: Seq<Component>, y: Seq<Component>, z: Seq<Component>)
    requires
        components_order(x, y) == Order::Less,
        components_order(y, z) == Order::Less,
    ensures
        components_order(x, z) == Order::Less,
    decreases x.len(),
{
    if x.len() > 0 && y.len() > 0 && z.len() > 0 {
        let oxy = component_order(x[0], y[0]);
        let oyz = component_order(y[0], z[0]);
        if oxy == Order::Equal {
            lemma_component_order_equal(x[0], y[0]);
        }
        if oyz == Order::Equal {
            lemma_component_order_equal(y[0], z[0]);
        }
        if oxy == Order::Less && oyz == Order::Less {
            lemma_component_order_less_trans(x[0], y[0], z[0]);
        }
        if oxy == Order::Equal && oyz == Order::Equal {
            lemma_components_order_less_trans(x.drop_first(), y.drop_first(), z.drop_first());
        }
    }
}

/// Path order is transitive: `a` before `b` before `c` puts `a` before `c`.
pub proof fn lemma_path_le_trans(a: Seq<char>, b: Seq<char>, c: Seq<char>)
    requires
        path_le(a, b),
        path_le(b, c),
    ensures
        path_le(a, c),
{
    let (x, y, z) = (components(a), components(b), components(c));
    if components_order(x, y) == Order::Equal {
        lemma_components_order_equal(x, y);
    } else if components_order(y, z) == Order::Equal {
        lemma_components_order_equal(y, z);
    } else {
        lemma_components_order_less_trans(x, y, z);
    }
}

fn compare_part(a: &PathPart, b: &PathPart) -> (r: Order)
    ensures
        r == component_order(a.component(), b.component()),
{
    let ra: u8 = match a {
        PathPart::Root => 1,
        PathPart::Cur => 2,
        PathPart::Parent => 3,
        PathPart::Normal(_) => 4,
    };
    let rb: u8 = match b {
        PathPart::Root => 1,
        PathPart::Cur => 2,
        PathPart::Parent => 3,
        PathPart::Normal(_) => 4,
    };
    if ra < rb {
        Order::Less
    } else if ra > rb {
        Order::Greater
    } else {
        match (a, b) {
            (PathPart::Normal(x), PathPart::Normal(y)) => compare_chars(x.as_slice(), y.as_slice()),
            _ => Order::Equal,
        }
    }
}

fn compare_parts(a: &[PathPart], b: &[PathPart]) -> (r: Order)
    ensures
        r == components_order(parts_view(a@), parts_view(b@)),
{
    let mut i: usize = 0;
    let ghost x = parts_view(a@);
    let ghost y = parts_view(b@);
    assert(x.skip(0) == x && y.skip(0) == y);
    loop
        invariant
            i <= a@.len(),
            i <= b@.len(),
            x == parts_view(a@),
            y == parts_view(b@),
            components_order(x, y) == components_order(x.skip(i as int), y.skip(i as int)),
        decreases a@.len() - i,
    {
        if i == a.len() && i == b.len() {
            return Order::Equal;
        } else if i == a.len() {
            return Order::Less;
        } else if i == b.len() {
            return Order::Greater;
        }
        let o = compare_part(&a[i], &b[i]);
        assert(x.skip(i as int)[0] == a@[i as int].component());
        assert(y.skip(i as int)[0] == b@[i as int].component());
        match o {
            Order::Equal => {},
            _ => {
                return o;
            },
        }
        assert(x.skip(i as int).drop_first() == x.skip(i + 1));
        assert(y.skip(i as int).drop_first() == y.skip(i + 1));
        i += 1;
    }
}

/// `a` sorts no later than `b`.
pub open spec fn path_le(a: Seq<char>, b: Seq<char>) -> bool {
    path_order(a, b) != Order::Greater
}

/// Each path sorts no later than the next.
pub open spec fn adjacent_sorted(s: Seq<Seq<char>>) -> bool {
    forall|i: int| 0 <= i < s.len() - 1 ==> #[trigger] path_le(s[i], s[i + 1])
}

/// Each path sorts no later than every path after it.
pub open spec fn paths_sorted(s: Seq<Seq<char>>) -> bool {
    forall|i: int, j: int| 0 <= i < j < s.len() ==> path_le(#[trigger] s[i], #[trigger] s[j])
}

proof fn lemma_adjacent_sorted_fully(s: Seq<Seq<char>>, i: int, j: int)
    requires
        adjacent_sorted(s),
        0 <= i < j < s.len(),
    ensures
        path_le(s[i], s[j]),
    decreases j - i,
{
    if j == i + 1 {
        assert(path_le(s[i], s[i + 1]));
    } else {
        lemma_adjacent_sorted_fully(s, i, j - 1);
        let k = j - 1;
        assert(path_le(s[k], s[k + 1]));
        lemma_path_le_trans(s[i], s[j - 1], s[j]);
    }
}

/// `x` inserted into `s` after every path, scanning from the back, that sorts no
/// later than it: the insertion step of a stable sort.
pub open spec fn insert_path(s: Seq<Seq<char>>, x: Seq<char>) -> Seq<Seq<char>>
    decreases s.len(),
{
    if s.len() == 0 {
        seq![x]
    } else if path_le(s.last(), x) {
        s.push(x)
    } else {
        insert_path(s.drop_last(), x).push(s.last())
    }
}

/// `s` stably sorted by path order (what `<[PathBuf]>::sort` yields).
pub open spec fn sort_paths_spec(s: Seq<Seq<char>>) -> Seq<Seq<char>>
    decreases s.len(),
{
    if s.len() == 0 {
        s
    } else {
        insert_path(sort_paths_spec(s.drop_last()), s.last())
    }
}

proof fn lemma_insert_path_at(s: Seq<Seq<char>>, x: Seq<char>, p: int)
    requires
        0 <= p <= s.len(),
        forall|j: int| p <= j < s.len() ==> !path_le(#[trigger] s[j], x),
        p == 0 || path_le(s[p - 1], x),
    ensures
        insert_path(s, x) == s.insert(p, x),
    decreases s.len(),
{
    if s.len() == 0 {
        assert(s.insert(p, x) =~= seq![x]);
    } else if path_le(s.last(), x) {
        assert(p == s.len());
        assert(s.insert(p, x) =~= s.push(x));
    } else {
        assert(!path_le(s[s.len() - 1], x));
        lemma_insert_path_at(s.drop_last(), x, p);
        assert(s.drop_last().insert(p, x).push(s.last()) =~= s.insert(p, x));
    }
}

proof fn lemma_insert_path_sorted(s: Seq<Seq<char>>, x: Seq<char>)
    requires
        adjacent_sorted(s),
    ensures
        adjacent_sorted(insert_path(s, x)),
        insert_path(s, x).to_multiset() == s.to_multiset().insert(x),
        insert_path(s, x).len() == s.len() + 1,
        insert_path(s, x).last() == x || (s.len() > 0 && insert_path(s, x).last() == s.last()),
    decreases s.len(),
{
    broadcast use vstd::seq_lib::group_to_multiset_ensures;

    if s.len() == 0 {
        assert(seq![x] =~= Seq::<Seq<char>>::empty().push(x));
    } else if path_le(s.last(), x) {
        let r = s.push(x);
        assert forall|i: int| 0 <= i < r.len() - 1 implies #[trigger] path_le(r[i], r[i + 1]) by {
            if i < s.len() - 1 {
                assert(path_le(s[i], s[i + 1]));
            }
        }
    } else {
        let t = s.drop_last();
        assert forall|i: int| 0 <= i < t.len() - 1 implies #[trigger] path_le(t[i], t[i + 1]) by {
            assert(path_le(s[i], s[i + 1]));
        }
        lemma_insert_path_sorted(t, x);
        let q = insert_path(t, x);
        let r = q.push(s.last());
        assert(s =~= t.push(s.last()));
        assert(path_le(q.last(), s.last())) by {
            if q.last() == x {
                lemma_components_order_flip(components(s.last()), components(x));
            } else {
                let i = t.len() - 1;
                assert(path_le(s[i], s[i + 1]));
                assert(s[i] == t.last() && s[i + 1] == s.last());
            }
        }
        assert forall|i: int| 0 <= i < r.len() - 1 implies #[trigger] path_le(r[i], r[i + 1]) by {
            if i < q.len() - 1 {
                assert(path_le(q[i], q[i + 1]));
            }
        }
    }
}

/// Sorting paths yields each path sorting no later than the ones after it, and
/// exactly the paths it was given.
pub proof fn lemma_sort_paths(s: Seq<Seq<char>>)
    ensures
        adjacent_sorted(sort_paths_spec(s)),
        paths_sorted(sort_paths_spec(s)),
        sort_paths_spec(s).to_multiset() == s.to_multiset(),
        sort_paths_spec(s).len() == s.len(),
    decreases s.len(),
{
    broadcast use vstd::seq_lib::group_to_multiset_ensures;

    if s.len() > 0 {
        lemma_sort_paths(s.drop_last());
        lemma_insert_path_sorted(sort_paths_spec(s.drop_last()), s.last());
        assert(s =~= s.drop_last().push(s.last()));
    }
    let r = sort_paths_spec(s);
    assert forall|i: int, j: int| 0 <= i < j < r.len() implies path_le(
        #[trigger] r[i],
        #[trigger] r[j],
    ) by {
        lemma_adjacent_sorted_fully(r, i, j);
    }
}

/// The text of each string.
pub open spec fn texts(v: Seq<String>) -> Seq<Seq<char>> {
    v.map_values(|s: String| s@)
}

/// Stably sorts `paths` in the order `PathBuf` sorts them: component by component.
pub fn sort_paths(paths: Vec<String>) -> (r: Vec<String>)
    ensures
        texts(r@) == sort_paths_spec(texts(paths@)),
{
    let ghost input = texts(paths@);
    let mut keys: Vec<Vec<PathPart>> = Vec::new();
    let mut out: Vec<String> = Vec::new();
    let n = paths.len();
    for i in 0..n
        invariant
            n == paths@.len(),
            input == texts(paths@),
            keys@.len() == out@.len(),
            forall|k: int| 0 <= k < keys@.len() ==> #[trigger] parts_view(keys@[k]@) == components(
                out@[k]@,
            ),
            texts(out@) == sort_paths_spec(input.take(i as int)),
    {
        let x = paths[i].clone();
        let xc = chars_of(x.as_str());
        let key = components_exec(xc.as_slice());
        let mut p = out.len();
        loop
            invariant
                p <= out@.len(),
                keys@.len() == out@.len(),
                forall|k: int| 0 <= k < keys@.len() ==> #[trigger] parts_view(keys@[k]@) == components(
                    out@[k]@,
                ),
                parts_view(key@) == components(x@),
                forall|j: int| p <= j < out@.len() ==> !path_le(#[trigger] texts(out@)[j], x@),
            ensures
                p <= out@.len(),
                forall|j: int| p <= j < out@.len() ==> !path_le(#[trigger] texts(out@)[j], x@),
                p == 0 || path_le(texts(out@)[p - 1], x@),
            decreases p,
        {
            if p == 0 {
                break;
            }
            let o = compare_parts(keys[p - 1].as_slice(), key.as_slice());
            assert(texts(out@)[p - 1] == out@[p - 1]@);
            match o {
                Order::Greater => {
                    p -= 1;
                },
                _ => {
                    break;
                },
            }
        }
        proof {
            lemma_insert_path_at(texts(out@), x@, p as int);
            assert(input.take(i + 1).drop_last() == input.take(i as int));
            assert(input.take(i + 1).last() == x@);
        }
        let ghost before = out@;
        let ghost old_keys = keys@;
        keys.insert(p, key);
        out.insert(p, x);
        proof {
            assert(texts(out@) =~= texts(before).insert(p as int, out@[p as int]@));
            assert forall|k: int| 0 <= k < keys@.len() implies #[trigger] parts_view(keys@[k]@)
                == components(out@[k]@) by {
                if k > p {
                    assert(keys@[k] == old_keys[k - 1]);
                }
            }
        }
    }
    assert(input.take(n as int) == input);
    out
}

} // verus!
