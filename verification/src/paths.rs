//! The order of report file paths: paths compare component by component,
//! as `Path`'s order does, and the list of files to read is sorted in that
//! order with each path kept once.

use vstd::prelude::*;

verus! {

/// One component of a path, as `Path::components` yields it. The text of a
/// prefix or a normal component is kept as its bytes.
pub enum PathPart {
    /// A Windows path prefix such as `C:`.
    Prefix(Vec<u8>),
    /// The root directory, `/`.
    Root,
    /// `.` at the start of a relative path.
    Current,
    /// `..`.
    Parent,
    /// A name.
    Normal(Vec<u8>),
}

pub ghost enum PartView {
    Prefix(Seq<u8>),
    Root,
    Current,
    Parent,
    Normal(Seq<u8>),
}

impl View for PathPart {
    type V = PartView;

    open spec fn view(&self) -> PartView {
        match self {
            PathPart::Prefix(b) => PartView::Prefix(b@),
            PathPart::Root => PartView::Root,
            PathPart::Current => PartView::Current,
            PathPart::Parent => PartView::Parent,
            PathPart::Normal(b) => PartView::Normal(b@),
        }
    }
}

/// The components of a path, as views.
pub open spec fn parts_view(p: Seq<PathPart>) -> Seq<PartView> {
    p.map_values(|x: PathPart| x@)
}

// ---------------------------------------------------------------------------
// Order

/// Lexicographic order of sequences by a strict order of their elements: at
/// the first difference the smaller element comes first, and a proper
/// prefix comes before the longer sequence.
pub open spec fn lex_less<T>(a: Seq<T>, b: Seq<T>, lt: spec_fn(T, T) -> bool) -> bool
    decreases a.len(),
{
    if a.len() == 0 {
        b.len() > 0
    } else if b.len() == 0 {
        false
    } else if a[0] != b[0] {
        lt(a[0], b[0])
    } else {
        lex_less(a.drop_first(), b.drop_first(), lt)
    }
}

pub open spec fn byte_less() -> spec_fn(u8, u8) -> bool {
    |x: u8, y: u8| x < y
}

/// Components compare by kind (prefix, root, `.`, `..`, name, in that
/// order), then by their bytes.
pub open spec fn part_rank(p: PartView) -> int {
    match p {
        PartView::Prefix(_) => 0,
        PartView::Root => 1,
        PartView::Current => 2,
        PartView::Parent => 3,
        PartView::Normal(_) => 4,
    }
}

pub open spec fn part_bytes(p: PartView) -> Seq<u8> {
    match p {
        PartView::Prefix(b) => b,
        PartView::Normal(b) => b,
        _ => Seq::empty(),
    }
}

pub open spec fn part_less() -> spec_fn(PartView, PartView) -> bool {
    |p: PartView, q: PartView|
        part_rank(p) < part_rank(q) || (part_rank(p) == part_rank(q) && lex_less(
            part_bytes(p),
            part_bytes(q),
            byte_less(),
        ))
}

/// `a` sorts strictly before `b`, component by component.
pub open spec fn path_less(a: Seq<PartView>, b: Seq<PartView>) -> bool {
    lex_less(a, b, part_less())
}

pub open spec fn strict_order<T>(lt: spec_fn(T, T) -> bool) -> bool {
    &&& forall|x: T| !(#[trigger] lt(x, x))
    &&& forall|x: T, y: T, z: T| #[trigger] lt(x, y) && #[trigger] lt(y, z) ==> lt(x, z)
    &&& forall|x: T, y: T| x != y ==> #[trigger] lt(x, y) || lt(y, x)
}

proof fn lemma_lex_irreflexive<T>(a: Seq<T>, lt: spec_fn(T, T) -> bool)
    ensures
        !lex_less(a, a, lt),
    decreases a.len(),
{
    if a.len() > 0 {
        lemma_lex_irreflexive(a.drop_first(), lt);
    }
}

proof fn lemma_lex_transitive<T>(a: Seq<T>, b: Seq<T>, c: Seq<T>, lt: spec_fn(T, T) -> bool)
    requires
        strict_order(lt),
        lex_less(a, b, lt),
        lex_less(b, c, lt),
    ensures
        lex_less(a, c, lt),
    decreases a.len(),
{
    if a.len() > 0 && b.len() > 0 && c.len() > 0 {
        if a[0] == b[0] && b[0] == c[0] {
            lemma_lex_transitive(a.drop_first(), b.drop_first(), c.drop_first(), lt);
        } else if a[0] != b[0] && b[0] != c[0] && a[0] == c[0] {
            assert(lt(a[0], b[0]) && lt(b[0], c[0]));
            assert(lt(a[0], a[0]));
        }
    }
}

proof fn lemma_lex_total<T>(a: Seq<T>, b: Seq<T>, lt: spec_fn(T, T) -> bool)
    requires
        strict_order(lt),
        a != b,
    ensures
        lex_less(a, b, lt) || lex_less(b, a, lt),
    decreases a.len(),
{
    if a.len() > 0 && b.len() > 0 {
        if a[0] == b[0] {
            if a.drop_first() == b.drop_first() {
                assert(a =~= seq![a[0]] + a.drop_first());
                assert(b =~= seq![b[0]] + b.drop_first());
            } else {
                lemma_lex_total(a.drop_first(), b.drop_first(), lt);
            }
        } else {
            assert(lt(a[0], b[0]) || lt(b[0], a[0]));
        }
    } else if a.len() == 0 && b.len() == 0 {
        assert(a =~= b);
    }
}

/// A lexicographic order by a strict total order is a strict total order.
proof fn lemma_lex_strict<T>(lt: spec_fn(T, T) -> bool)
    requires
        strict_order(lt),
    ensures
        strict_order(|a: Seq<T>, b: Seq<T>| lex_less(a, b, lt)),
{
    let l = |a: Seq<T>, b: Seq<T>| lex_less(a, b, lt);
    assert forall|x: Seq<T>| !(#[trigger] l(x, x)) by {
        lemma_lex_irreflexive(x, lt);
    }
    assert forall|x: Seq<T>, y: Seq<T>, z: Seq<T>| #[trigger] l(x, y) && #[trigger] l(y, z) implies l(x, z) by {
        lemma_lex_transitive(x, y, z, lt);
    }
    assert forall|x: Seq<T>, y: Seq<T>| x != y implies #[trigger] l(x, y) || l(y, x) by {
        lemma_lex_total(x, y, lt);
    }
}

proof fn lemma_part_strict()
    ensures
        strict_order(part_less()),
{
    let bl = byte_less();
    assert(strict_order(bl));
    lemma_lex_strict(bl);
    let pl = part_less();
    assert forall|x: PartView| !(#[trigger] pl(x, x)) by {
        lemma_lex_irreflexive(part_bytes(x), bl);
    }
    assert forall|x: PartView, y: PartView, z: PartView| #[trigger] pl(x, y) && #[trigger] pl(y, z) implies pl(x, z) by {
        if part_rank(x) == part_rank(y) && part_rank(y) == part_rank(z) {
            lemma_lex_transitive(part_bytes(x), part_bytes(y), part_bytes(z), bl);
        }
    }
    assert forall|x: PartView, y: PartView| x != y implies #[trigger] pl(x, y) || pl(y, x) by {
        if part_rank(x) == part_rank(y) {
            assert(part_bytes(x) != part_bytes(y));
            lemma_lex_total(part_bytes(x), part_bytes(y), bl);
        }
    }
}

/// Paths ordered component by component form a strict total order.
pub proof fn lemma_path_order()
    ensures
        strict_order(|a: Seq<PartView>, b: Seq<PartView>| path_less(a, b)),
{
    lemma_part_strict();
    lemma_lex_strict(part_less());
    let l1 = |a: Seq<PartView>, b: Seq<PartView>| path_less(a, b);
    let l2 = |a: Seq<PartView>, b: Seq<PartView>| lex_less(a, b, part_less());
    assert(l1 =~= l2);
}

// ---------------------------------------------------------------------------
// Comparing

/// The outcome of comparing two values.
pub enum Comparison {
    Less,
    Same,
    Greater,
}

fn compare_bytes(a: &Vec<u8>, b: &Vec<u8>) -> (r: Comparison)
    ensures
        r is Less ==> lex_less(a@, b@, byte_less()),
        r is Same ==> a@ == b@,
        r is Greater ==> lex_less(b@, a@, byte_less()),
{
    let n = a.len();
    let m = b.len();
    let mut i: usize = 0;
    assert(a@.subrange(0, n as int) =~= a@);
    assert(b@.subrange(0, m as int) =~= b@);
    while i < n && i < m && a[i] == b[i]
        invariant
            n == a@.len(),
            m == b@.len(),
            i <= n,
            i <= m,
            a@.subrange(0, i as int) == b@.subrange(0, i as int),
            lex_less(a@, b@, byte_less()) == lex_less(
                a@.subrange(i as int, n as int),
                b@.subrange(i as int, m as int),
                byte_less(),
            ),
            lex_less(b@, a@, byte_less()) == lex_less(
                b@.subrange(i as int, m as int),
                a@.subrange(i as int, n as int),
                byte_less(),
            ),
        decreases n - i,
    {
        let ghost sa = a@.subrange(i as int, n as int);
        let ghost sb = b@.subrange(i as int, m as int);
        assert(sa.drop_first() =~= a@.subrange(i + 1, n as int));
        assert(sb.drop_first() =~= b@.subrange(i + 1, m as int));
        assert(a@.subrange(0, i + 1) =~= a@.subrange(0, i as int).push(a@[i as int]));
        assert(b@.subrange(0, i + 1) =~= b@.subrange(0, i as int).push(b@[i as int]));
        i = i + 1;
    }
    if i == n && i == m {
        assert(a@ =~= b@);
        Comparison::Same
    } else if i == n {
        Comparison::Less
    } else if i == m {
        Comparison::Greater
    } else if a[i] < b[i] {
        Comparison::Less
    } else {
        Comparison::Greater
    }
}

fn part_rank_of(p: &PathPart) -> (r: u8)
    ensures
        r == part_rank(p@),
{
    match p {
        PathPart::Prefix(_) => 0,
        PathPart::Root => 1,
        PathPart::Current => 2,
        PathPart::Parent => 3,
        PathPart::Normal(_) => 4,
    }
}

fn compare_parts(p: &PathPart, q: &PathPart) -> (r: Comparison)
    ensures
        r is Less ==> (part_less())(p@, q@),
        r is Same ==> p@ == q@,
        r is Greater ==> (part_less())(q@, p@),
{
    let rp = part_rank_of(p);
    let rq = part_rank_of(q);
    if rp < rq {
        Comparison::Less
    } else if rq < rp {
        Comparison::Greater
    } else {
        match (p, q) {
            (PathPart::Prefix(a), PathPart::Prefix(b)) => compare_bytes(a, b),
            (PathPart::Normal(a), PathPart::Normal(b)) => compare_bytes(a, b),
            _ => Comparison::Same,
        }
    }
}

fn compare_paths(a: &Vec<PathPart>, b: &Vec<PathPart>) -> (r: Comparison)
    ensures
        r is Less ==> path_less(parts_view(a@), parts_view(b@)),
        r is Same ==> parts_view(a@) == parts_view(b@),
        r is Greater ==> path_less(parts_view(b@), parts_view(a@)),
{
    let ghost va = parts_view(a@);
    let ghost vb = parts_view(b@);
    let n = a.len();
    let m = b.len();
    let mut i: usize = 0;
    assert(va.subrange(0, n as int) =~= va);
    assert(vb.subrange(0, m as int) =~= vb);
    while i < n && i < m
        invariant
            n == va.len(),
            m == vb.len(),
            va == parts_view(a@),
            vb == parts_view(b@),
            i <= n,
            i <= m,
            va.subrange(0, i as int) == vb.subrange(0, i as int),
            path_less(va, vb) == path_less(va.subrange(i as int, n as int), vb.subrange(i as int, m as int)),
            path_less(vb, va) == path_less(vb.subrange(i as int, m as int), va.subrange(i as int, n as int)),
        decreases n - i,
    {
        let ghost sa = va.subrange(i as int, n as int);
        let ghost sb = vb.subrange(i as int, m as int);
        assert(sa[0] == a@[i as int]@);
        assert(sb[0] == b@[i as int]@);
        match compare_parts(&a[i], &b[i]) {
            Comparison::Less => {
                proof {
                    lemma_part_strict();
                    assert(sa[0] != sb[0]);
                }
                return Comparison::Less;
            },
            Comparison::Greater => {
                proof {
                    lemma_part_strict();
                    assert(sa[0] != sb[0]);
                }
                return Comparison::Greater;
            },
            Comparison::Same => {},
        }
        assert(sa.drop_first() =~= va.subrange(i + 1, n as int));
        assert(sb.drop_first() =~= vb.subrange(i + 1, m as int));
        assert(va.subrange(0, i + 1) =~= va.subrange(0, i as int).push(va[i as int]));
        assert(vb.subrange(0, i + 1) =~= vb.subrange(0, i as int).push(vb[i as int]));
        i = i + 1;
    }
    if i == n && i == m {
        assert(va =~= vb);
        Comparison::Same
    } else if i == n {
        Comparison::Less
    } else {
        Comparison::Greater
    }
}

proof fn lemma_path_facts()
    ensures
        forall|x: Seq<PartView>| !(#[trigger] path_less(x, x)),
        forall|x: Seq<PartView>, y: Seq<PartView>, z: Seq<PartView>|
            #[trigger] path_less(x, y) && #[trigger] path_less(y, z) ==> path_less(x, z),
        forall|x: Seq<PartView>, y: Seq<PartView>| x != y ==> #[trigger] path_less(x, y) || path_less(y, x),
{
    lemma_path_order();
    let l = |a: Seq<PartView>, b: Seq<PartView>| path_less(a, b);
    assert forall|x: Seq<PartView>| !(#[trigger] path_less(x, x)) by {
        assert(!l(x, x));
    }
    assert forall|x: Seq<PartView>, y: Seq<PartView>, z: Seq<PartView>|
        #[trigger] path_less(x, y) && #[trigger] path_less(y, z) implies path_less(x, z) by {
        assert(l(x, y) && l(y, z));
    }
    assert forall|x: Seq<PartView>, y: Seq<PartView>| x != y implies #[trigger] path_less(x, y) || path_less(y, x) by {
        assert(l(x, y) || l(y, x));
    }
}

// ---------------------------------------------------------------------------
// Sorting

/// The components of path `i`.
#[verifier::opaque]
pub open spec fn key_of(keys: Seq<Vec<PathPart>>, i: int) -> Seq<PartView> {
    parts_view(keys[i]@)
}

/// Some place of `order` holds a path with the components `key`.
pub open spec fn has_key(order: Seq<usize>, keys: Seq<Vec<PathPart>>, key: Seq<PartView>) -> bool {
    exists|k: int| 0 <= k < order.len() && key_of(keys, #[trigger] order[k] as int) == key
}

/// Among the first `n` paths of `keys`: `order` lists each distinct path
/// once, sorted strictly component by component, each by the first
/// position it holds.
pub open spec fn lists_first(order: Seq<usize>, keys: Seq<Vec<PathPart>>, n: int) -> bool {
    &&& forall|k: int| 0 <= k < order.len() ==> #[trigger] order[k] < n
    &&& forall|a: int, b: int|
        0 <= a < b < order.len() ==> path_less(
            key_of(keys, #[trigger] order[a] as int),
            key_of(keys, #[trigger] order[b] as int),
        )
    &&& forall|i: int| 0 <= i < n ==> #[trigger] has_key(order, keys, key_of(keys, i))
    &&& forall|k: int, i: int|
        0 <= k < order.len() && 0 <= i < order[k] ==> #[trigger] key_of(keys, i) != key_of(
            keys,
            #[trigger] order[k] as int,
        )
}

/// `order` lists each distinct path of `keys` once, sorted strictly
/// component by component, each by the first position it holds.
pub open spec fn orders_paths(order: Seq<usize>, keys: Seq<Vec<PathPart>>) -> bool {
    lists_first(order, keys, keys.len() as int)
}

/// Path `i` is listed already: nothing to add.
proof fn lemma_listed_already(order: Seq<usize>, keys: Seq<Vec<PathPart>>, i: int, p: int)
    requires
        lists_first(order, keys, i),
        0 <= i < keys.len(),
        0 <= p < order.len(),
        key_of(keys, order[p] as int) == key_of(keys, i),
    ensures
        lists_first(order, keys, i + 1),
{
    assert forall|j: int| 0 <= j < i + 1 implies #[trigger] has_key(order, keys, key_of(keys, j)) by {
        if j == i {
            assert(key_of(keys, order[p] as int) == key_of(keys, j));
        }
    }
}

proof fn lemma_path_trans(x: Seq<PartView>, y: Seq<PartView>, z: Seq<PartView>)
    requires
        path_less(x, y),
        path_less(y, z),
    ensures
        path_less(x, z),
{
    lemma_path_facts();
}

proof fn lemma_path_irrefl(x: Seq<PartView>)
    ensures
        !path_less(x, x),
{
    lemma_path_facts();
}

/// Path `i` sorts before every listed path from place `p` on, and differs
/// from every path before it.
proof fn lemma_new_place(order: Seq<usize>, keys: Seq<Vec<PathPart>>, i: int, p: int)
    requires
        lists_first(order, keys, i),
        0 <= i < keys.len(),
        0 <= p <= order.len(),
        forall|k: int| 0 <= k < p ==> path_less(key_of(keys, #[trigger] order[k] as int), key_of(keys, i)),
        p < order.len() ==> path_less(key_of(keys, i), key_of(keys, order[p] as int)),
    ensures
        forall|b: int| p <= b < order.len() ==> path_less(key_of(keys, i), key_of(keys, #[trigger] order[b] as int)),
        forall|j: int| 0 <= j < i ==> #[trigger] key_of(keys, j) != key_of(keys, i),
{
    let ki = key_of(keys, i);
    assert forall|b: int| p <= b < order.len() implies path_less(ki, key_of(keys, #[trigger] order[b] as int)) by {
        if b > p {
            assert(path_less(key_of(keys, order[p] as int), key_of(keys, order[b] as int)));
            lemma_path_trans(ki, key_of(keys, order[p] as int), key_of(keys, order[b] as int));
        }
    }
    assert forall|j: int| 0 <= j < i implies #[trigger] key_of(keys, j) != ki by {
        if key_of(keys, j) == ki {
            assert(has_key(order, keys, key_of(keys, j)));
            let k = choose|k: int| 0 <= k < order.len() && key_of(keys, #[trigger] order[k] as int) == key_of(keys, j);
            lemma_path_irrefl(ki);
            if k < p {
                assert(path_less(key_of(keys, order[k] as int), ki));
            } else {
                assert(path_less(ki, key_of(keys, order[k] as int)));
            }
        }
    }
}

proof fn lemma_new_sorted(order: Seq<usize>, keys: Seq<Vec<PathPart>>, i: int, p: int)
    requires
        0 <= i <= usize::MAX,
        0 <= p <= order.len(),
        forall|a: int, b: int|
            0 <= a < b < order.len() ==> path_less(
                key_of(keys, #[trigger] order[a] as int),
                key_of(keys, #[trigger] order[b] as int),
            ),
        forall|k: int| 0 <= k < p ==> path_less(key_of(keys, #[trigger] order[k] as int), key_of(keys, i)),
        forall|b: int| p <= b < order.len() ==> path_less(key_of(keys, i), key_of(keys, #[trigger] order[b] as int)),
    ensures
        ({
            let out = order.insert(p, i as usize);
            forall|a: int, b: int|
                0 <= a < b < out.len() ==> path_less(
                    key_of(keys, #[trigger] out[a] as int),
                    key_of(keys, #[trigger] out[b] as int),
                )
        }),
{
    let ki = key_of(keys, i);
    let out = order.insert(p, i as usize);
    assert forall|a: int, b: int| 0 <= a < b < out.len() implies path_less(
        key_of(keys, #[trigger] out[a] as int),
        key_of(keys, #[trigger] out[b] as int),
    ) by {
        if b < p {
            assert(out[a] == order[a] && out[b] == order[b]);
        } else if b == p {
            assert(out[a] == order[a]);
        } else if a < p {
            assert(out[a] == order[a] && out[b] == order[b - 1]);
            assert(path_less(key_of(keys, order[a] as int), ki));
            assert(path_less(ki, key_of(keys, order[b - 1] as int)));
            lemma_path_trans(key_of(keys, order[a] as int), ki, key_of(keys, order[b - 1] as int));
        } else if a == p {
            assert(out[b] == order[b - 1]);
        } else {
            assert(out[a] == order[a - 1] && out[b] == order[b - 1]);
        }
    }
}

proof fn lemma_new_first(order: Seq<usize>, keys: Seq<Vec<PathPart>>, i: int, p: int)
    requires
        0 <= i <= usize::MAX,
        0 <= p <= order.len(),
        forall|k: int, j: int|
            0 <= k < order.len() && 0 <= j < order[k] ==> #[trigger] key_of(keys, j) != key_of(
                keys,
                #[trigger] order[k] as int,
            ),
        forall|j: int| 0 <= j < i ==> #[trigger] key_of(keys, j) != key_of(keys, i),
    ensures
        ({
            let out = order.insert(p, i as usize);
            forall|k: int, j: int|
                0 <= k < out.len() && 0 <= j < out[k] ==> #[trigger] key_of(keys, j) != key_of(
                    keys,
                    #[trigger] out[k] as int,
                )
        }),
{
    let out = order.insert(p, i as usize);
    assert forall|k: int, j: int| 0 <= k < out.len() && 0 <= j < out[k] implies #[trigger] key_of(keys, j)
        != key_of(keys, #[trigger] out[k] as int) by {
        if k < p {
            assert(out[k] == order[k]);
        } else if k > p {
            assert(out[k] == order[k - 1]);
        }
    }
}

proof fn lemma_new_cover(order: Seq<usize>, keys: Seq<Vec<PathPart>>, i: int, p: int)
    requires
        0 <= i <= usize::MAX,
        0 <= p <= order.len(),
        forall|j: int| 0 <= j < i ==> #[trigger] has_key(order, keys, key_of(keys, j)),
    ensures
        forall|j: int| 0 <= j < i + 1 ==> #[trigger] has_key(order.insert(p, i as usize), keys, key_of(keys, j)),
{
    let out = order.insert(p, i as usize);
    assert forall|j: int| 0 <= j < i + 1 implies #[trigger] has_key(out, keys, key_of(keys, j)) by {
        if j == i {
            assert(out[p] == i);
            assert(key_of(keys, out[p] as int) == key_of(keys, j));
        } else {
            assert(has_key(order, keys, key_of(keys, j)));
            let k = choose|k: int| 0 <= k < order.len() && key_of(keys, #[trigger] order[k] as int) == key_of(keys, j);
            if k < p {
                assert(out[k] == order[k]);
                assert(key_of(keys, out[k] as int) == key_of(keys, j));
            } else {
                assert(out[k + 1] == order[k]);
                assert(key_of(keys, out[k + 1] as int) == key_of(keys, j));
            }
        }
    }
}

/// Path `i` is new: it goes in at its place `p`.
proof fn lemma_listed_new(order: Seq<usize>, keys: Seq<Vec<PathPart>>, i: int, p: int)
    requires
        lists_first(order, keys, i),
        0 <= i < keys.len(),
        i <= usize::MAX,
        0 <= p <= order.len(),
        forall|k: int| 0 <= k < p ==> path_less(key_of(keys, #[trigger] order[k] as int), key_of(keys, i)),
        p < order.len() ==> path_less(key_of(keys, i), key_of(keys, order[p] as int)),
    ensures
        lists_first(order.insert(p, i as usize), keys, i + 1),
{
    lemma_new_place(order, keys, i, p);
    lemma_new_sorted(order, keys, i, p);
    lemma_new_first(order, keys, i, p);
    lemma_new_cover(order, keys, i, p);
    let out = order.insert(p, i as usize);
    assert forall|k: int| 0 <= k < out.len() implies #[trigger] out[k] < i + 1 by {
        if k < p {
            assert(out[k] == order[k]);
        } else if k > p {
            assert(out[k] == order[k - 1]);
        }
    }
}

/// The first place in `out` whose path does not sort before path `i`.
fn place_of(keys: &Vec<Vec<PathPart>>, out: &Vec<usize>, i: usize) -> (p: usize)
    requires
        i < keys@.len(),
        forall|k: int| 0 <= k < out@.len() ==> #[trigger] out@[k] < keys@.len(),
    ensures
        p <= out@.len(),
        forall|k: int| 0 <= k < p ==> path_less(key_of(keys@, #[trigger] out@[k] as int), key_of(keys@, i as int)),
        p < out@.len() ==> !path_less(key_of(keys@, out@[p as int] as int), key_of(keys@, i as int)),
{
    let mut p: usize = 0;
    while p < out.len()
        invariant
            i < keys@.len(),
            p <= out@.len(),
            forall|k: int| 0 <= k < out@.len() ==> #[trigger] out@[k] < keys@.len(),
            forall|k: int| 0 <= k < p ==> path_less(key_of(keys@, #[trigger] out@[k] as int), key_of(keys@, i as int)),
        decreases out@.len() - p,
    {
        proof {
            reveal(key_of);
        }
        match compare_paths(&keys[out[p]], &keys[i]) {
            Comparison::Less => {},
            Comparison::Same => {
                proof {
                    lemma_path_facts();
                }
                return p;
            },
            Comparison::Greater => {
                proof {
                    lemma_path_facts();
                }
                return p;
            },
        }
        p = p + 1;
    }
    p
}

/// The paths to read, in order: the positions of the distinct paths of
/// `keys` (given as their components), sorted component by component, each
/// path by its first position (as a stable sort then removing repeats
/// does).
pub fn order_paths(keys: &Vec<Vec<PathPart>>) -> (r: Vec<usize>)
    ensures
        orders_paths(r@, keys@),
{
    let mut out: Vec<usize> = Vec::new();
    let mut i: usize = 0;
    while i < keys.len()
        invariant
            i <= keys@.len(),
            lists_first(out@, keys@, i as int),
        decreases keys@.len() - i,
    {
        let p = place_of(keys, &out, i);
        proof {
            reveal(key_of);
        }
        let listed = if p < out.len() {
            match compare_paths(&keys[out[p]], &keys[i]) {
                Comparison::Same => true,
                _ => false,
            }
        } else {
            false
        };
        proof {
            lemma_path_facts();
        }
        if listed {
            proof {
                lemma_listed_already(out@, keys@, i as int, p as int);
            }
        } else {
            proof {
                lemma_listed_new(out@, keys@, i as int, p as int);
            }
            out.insert(p, i);
        }
        i = i + 1;
    }
    out
}

} // verus!
