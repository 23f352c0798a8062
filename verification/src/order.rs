//! The order of names and paths, and sorting by it.

use vstd::prelude::*;

use crate::path::{self, Component, ComponentView, PathBuf, PathView};

verus! {

// ---------------------------------------------------------------------------
// Order
// ---------------------------------------------------------------------------

/// The lexicographic order over an order of the elements.
pub open spec fn lex_le<T>(a: Seq<T>, b: Seq<T>, le: spec_fn(T, T) -> bool) -> bool
    decreases a.len(),
{
    if a.len() == 0 {
        true
    } else if b.len() == 0 {
        false
    } else if a[0] == b[0] {
        lex_le(a.skip(1), b.skip(1), le)
    } else {
        le(a[0], b[0])
    }
}

/// The order of bytes.
pub open spec fn byte_order() -> spec_fn(u8, u8) -> bool {
    |a: u8, b: u8| a <= b
}

/// Names are ordered by their bytes.
pub open spec fn name_le(a: Seq<u8>, b: Seq<u8>) -> bool {
    lex_le(a, b, byte_order())
}

/// Where each kind of component stands in the order.
pub open spec fn component_rank(c: ComponentView) -> int {
    match c {
        Component::Prefix(_) => 0,
        Component::RootDir => 1,
        Component::CurDir => 2,
        Component::ParentDir => 3,
        Component::Normal(_) => 4,
    }
}

/// Components are ordered by kind, and by name within a kind.
pub open spec fn component_le(a: ComponentView, b: ComponentView) -> bool {
    match (a, b) {
        (Component::Prefix(x), Component::Prefix(y)) => name_le(x, y),
        (Component::Normal(x), Component::Normal(y)) => name_le(x, y),
        _ => component_rank(a) <= component_rank(b),
    }
}

/// The order of components.
pub open spec fn component_order() -> spec_fn(ComponentView, ComponentView) -> bool {
    |a: ComponentView, b: ComponentView| component_le(a, b)
}

/// Paths are ordered by their components.
pub open spec fn path_le(a: PathView, b: PathView) -> bool {
    lex_le(a, b, component_order())
}

/// Whether `le` is an order in which any two values can be compared.
pub open spec fn is_order<T>(le: spec_fn(T, T) -> bool) -> bool {
    &&& forall|a: T, b: T| #[trigger] le(a, b) || le(b, a)
    &&& forall|a: T, b: T| #[trigger] le(a, b) && #[trigger] le(b, a) ==> a == b
    &&& forall|a: T, b: T, c: T| #[trigger] le(a, b) && #[trigger] le(b, c) ==> le(a, c)
}

proof fn lemma_lex_total<T>(a: Seq<T>, b: Seq<T>, le: spec_fn(T, T) -> bool)
    requires
        is_order(le),
    ensures
        lex_le(a, b, le) || lex_le(b, a, le),
    decreases a.len(),
{
    if a.len() > 0 && b.len() > 0 {
        lemma_lex_total(a.skip(1), b.skip(1), le);
        assert(le(a[0], b[0]) || le(b[0], a[0]));
    }
}

proof fn lemma_lex_antisymmetric<T>(a: Seq<T>, b: Seq<T>, le: spec_fn(T, T) -> bool)
    requires
        is_order(le),
        lex_le(a, b, le),
        lex_le(b, a, le),
    ensures
        a == b,
    decreases a.len(),
{
    if a.len() > 0 && b.len() > 0 {
        if a[0] == b[0] {
            lemma_lex_antisymmetric(a.skip(1), b.skip(1), le);
            assert(a =~= seq![a[0]] + a.skip(1));
            assert(b =~= seq![b[0]] + b.skip(1));
        } else {
            assert(le(a[0], b[0]) && le(b[0], a[0]));
        }
    } else {
        assert(a =~= b);
    }
}

proof fn lemma_lex_transitive<T>(a: Seq<T>, b: Seq<T>, c: Seq<T>, le: spec_fn(T, T) -> bool)
    requires
        is_order(le),
        lex_le(a, b, le),
        lex_le(b, c, le),
    ensures
        lex_le(a, c, le),
    decreases a.len(),
{
    if a.len() > 0 {
        if a[0] == b[0] && b[0] == c[0] {
            lemma_lex_transitive(a.skip(1), b.skip(1), c.skip(1), le);
        } else if a[0] == c[0] {
            assert(le(a[0], b[0]) && le(b[0], c[0]));
        } else if a[0] != b[0] && b[0] != c[0] {
            assert(le(a[0], b[0]) && le(b[0], c[0]));
        }
    }
}

/// An order of the elements makes the lexicographic one an order too.
pub proof fn lemma_lex_order<T>(le: spec_fn(T, T) -> bool)
    requires
        is_order(le),
    ensures
        is_order(|a: Seq<T>, b: Seq<T>| lex_le(a, b, le)),
{
    let lex = |a: Seq<T>, b: Seq<T>| lex_le(a, b, le);
    assert forall|a: Seq<T>, b: Seq<T>| #[trigger] lex(a, b) || lex(b, a) by {
        lemma_lex_total(a, b, le);
    }
    assert forall|a: Seq<T>, b: Seq<T>| #[trigger] lex(a, b) && #[trigger] lex(b, a) implies a
        == b by {
        lemma_lex_antisymmetric(a, b, le);
    }
    assert forall|a: Seq<T>, b: Seq<T>, c: Seq<T>| #[trigger]
        lex(a, b) && #[trigger] lex(b, c) implies lex(a, c) by {
        lemma_lex_transitive(a, b, c, le);
    }
}

/// Any two names can be compared, and only equal ones stand level.
pub proof fn lemma_name_order()
    ensures
        is_order(|a: Seq<u8>, b: Seq<u8>| name_le(a, b)),
{
    lemma_lex_order(byte_order());
    let lex = |a: Seq<u8>, b: Seq<u8>| lex_le(a, b, byte_order());
    assert(lex =~= |a: Seq<u8>, b: Seq<u8>| name_le(a, b));
}

proof fn lemma_component_order()
    ensures
        is_order(component_order()),
{
    lemma_name_order();
    let names = |a: Seq<u8>, b: Seq<u8>| name_le(a, b);
    let le = component_order();
    assert forall|a: ComponentView, b: ComponentView| #[trigger] le(a, b) || le(b, a) by {
        match (a, b) {
            (Component::Prefix(x), Component::Prefix(y)) => {
                assert(names(x, y) || names(y, x));
            },
            (Component::Normal(x), Component::Normal(y)) => {
                assert(names(x, y) || names(y, x));
            },
            _ => {},
        }
    }
    assert forall|a: ComponentView, b: ComponentView| #[trigger]
        le(a, b) && #[trigger] le(b, a) implies a == b by {
        match (a, b) {
            (Component::Prefix(x), Component::Prefix(y)) => {
                assert(names(x, y) && names(y, x));
            },
            (Component::Normal(x), Component::Normal(y)) => {
                assert(names(x, y) && names(y, x));
            },
            _ => {},
        }
    }
    assert forall|a: ComponentView, b: ComponentView, c: ComponentView| #[trigger]
        le(a, b) && #[trigger] le(b, c) implies le(a, c) by {
        match (a, b, c) {
            (Component::Prefix(x), Component::Prefix(y), Component::Prefix(z)) => {
                assert(names(x, y) && names(y, z));
            },
            (Component::Normal(x), Component::Normal(y), Component::Normal(z)) => {
                assert(names(x, y) && names(y, z));
            },
            _ => {},
        }
    }
}

/// Any two paths can be compared, and only equal ones stand level.
pub proof fn lemma_path_order()
    ensures
        is_order(|a: PathView, b: PathView| path_le(a, b)),
{
    lemma_component_order();
    lemma_lex_order(component_order());
    let lex = |a: PathView, b: PathView| lex_le(a, b, component_order());
    assert(lex =~= |a: PathView, b: PathView| path_le(a, b));
}

/// Whether name `a` does not come after name `b`.
pub fn name_not_after(a: &[u8], b: &[u8]) -> (r: bool)
    ensures
        r == name_le(a@, b@),
{
    let mut i: usize = 0;
    assert(a@.skip(0) =~= a@);
    assert(b@.skip(0) =~= b@);
    while i < a.len() && i < b.len() && a[i] == b[i]
        invariant
            i <= a@.len(),
            i <= b@.len(),
            name_le(a@, b@) == name_le(a@.skip(i as int), b@.skip(i as int)),
        decreases a@.len() - i,
    {
        assert(a@.skip(i as int)[0] == a@[i as int]);
        assert(b@.skip(i as int)[0] == b@[i as int]);
        assert(a@.skip(i as int).skip(1) =~= a@.skip(i + 1));
        assert(b@.skip(i as int).skip(1) =~= b@.skip(i + 1));
        i = i + 1;
    }
    proof {
        if i < a@.len() {
            assert(a@.skip(i as int)[0] == a@[i as int]);
        }
        if i < b@.len() {
            assert(b@.skip(i as int)[0] == b@[i as int]);
        }
    }
    i >= a.len() || (i < b.len() && a[i] <= b[i])
}

fn rank(c: &Component<Vec<u8>>) -> (r: u8)
    ensures
        r == component_rank(c@),
{
    match c {
        Component::Prefix(_) => 0,
        Component::RootDir => 1,
        Component::CurDir => 2,
        Component::ParentDir => 3,
        Component::Normal(_) => 4,
    }
}

fn component_not_after(a: &Component<Vec<u8>>, b: &Component<Vec<u8>>) -> (r: bool)
    ensures
        r == component_le(a@, b@),
{
    match (a, b) {
        (Component::Prefix(x), Component::Prefix(y)) => name_not_after(x.as_slice(), y.as_slice()),
        (Component::Normal(x), Component::Normal(y)) => name_not_after(x.as_slice(), y.as_slice()),
        _ => rank(a) <= rank(b),
    }
}

/// Whether path `a` does not come after path `b`.
pub fn path_not_after(a: &PathBuf, b: &PathBuf) -> (r: bool)
    ensures
        r == path_le(a@, b@),
{
    let x = a.components();
    let y = b.components();
    let ghost av = a@;
    let ghost bv = b@;
    let mut i: usize = 0;
    assert(av.skip(0) =~= av);
    assert(bv.skip(0) =~= bv);
    while i < x.len() && i < y.len() && path::same_component(&x[i], &y[i])
        invariant
            av == path::components_view(x@),
            bv == path::components_view(y@),
            i <= x@.len(),
            i <= y@.len(),
            path_le(av, bv) == path_le(av.skip(i as int), bv.skip(i as int)),
        decreases x@.len() - i,
    {
        assert(av.skip(i as int)[0] == av[i as int]);
        assert(bv.skip(i as int)[0] == bv[i as int]);
        assert(av.skip(i as int).skip(1) =~= av.skip(i + 1));
        assert(bv.skip(i as int).skip(1) =~= bv.skip(i + 1));
        i = i + 1;
    }
    proof {
        if i < av.len() {
            assert(av.skip(i as int)[0] == x@[i as int]@);
        }
        if i < bv.len() {
            assert(bv.skip(i as int)[0] == y@[i as int]@);
        }
    }
    i >= x.len() || (i < y.len() && component_not_after(&x[i], &y[i]))
}

// ---------------------------------------------------------------------------
// Sorting
// ---------------------------------------------------------------------------

/// `s` with `x` put in behind everything that does not come after it.
pub open spec fn insert<T>(s: Seq<T>, x: T, le: spec_fn(T, T) -> bool) -> Seq<T>
    decreases s.len(),
{
    if s.len() == 0 || le(s.last(), x) {
        s.push(x)
    } else {
        insert(s.drop_last(), x, le).push(s.last())
    }
}

/// `s` sorted, with elements that stand level left in their order.
pub open spec fn sorted<T>(s: Seq<T>, le: spec_fn(T, T) -> bool) -> Seq<T>
    decreases s.len(),
{
    if s.len() == 0 {
        Seq::empty()
    } else {
        insert(sorted(s.drop_last(), le), s.last(), le)
    }
}

/// Two sorted sequences made one; `b` stands behind where they are level.
spec fn merged<T>(a: Seq<T>, b: Seq<T>, le: spec_fn(T, T) -> bool) -> Seq<T>
    decreases a.len() + b.len(),
{
    if a.len() == 0 {
        b
    } else if b.len() == 0 {
        a
    } else if le(a.last(), b.last()) {
        merged(a, b.drop_last(), le).push(b.last())
    } else {
        merged(a.drop_last(), b, le).push(a.last())
    }
}

/// Whether no element comes after a later one.
pub open spec fn is_sorted<T>(s: Seq<T>, le: spec_fn(T, T) -> bool) -> bool {
    forall|i: int, j: int| 0 <= i < j < s.len() ==> le(#[trigger] s[i], #[trigger] s[j])
}

/// Whether any two values can be compared, and comparison is transitive.
/// Different values may stand level.
pub open spec fn is_preorder<T>(le: spec_fn(T, T) -> bool) -> bool {
    &&& forall|a: T, b: T| #[trigger] le(a, b) || le(b, a)
    &&& forall|a: T, b: T, c: T| #[trigger] le(a, b) && #[trigger] le(b, c) ==> le(a, c)
}

proof fn lemma_insert<T>(s: Seq<T>, x: T, le: spec_fn(T, T) -> bool)
    requires
        is_preorder(le),
        is_sorted(s, le),
    ensures
        is_sorted(insert(s, x, le), le),
        insert(s, x, le).to_multiset() == s.to_multiset().insert(x),
        forall|i: int|
            0 <= i < insert(s, x, le).len() ==> (#[trigger] insert(s, x, le)[i]) == x || s.contains(
                insert(s, x, le)[i],
            ),
    decreases s.len(),
{
    broadcast use vstd::seq_lib::group_to_multiset_ensures;

    let r = insert(s, x, le);
    if s.len() == 0 {
    } else if le(s.last(), x) {
        assert forall|i: int, j: int| 0 <= i < j < r.len() implies le(
            #[trigger] r[i],
            #[trigger] r[j],
        ) by {
            if j == s.len() && i < s.len() - 1 {
                assert(le(s[i], s[s.len() - 1]));
            }
        }
        assert forall|i: int| 0 <= i < r.len() implies (#[trigger] r[i]) == x || s.contains(
            r[i],
        ) by {
            if i < s.len() {
                assert(s[i] == r[i]);
            }
        }
    } else {
        let front = s.drop_last();
        lemma_insert(front, x, le);
        let inner = insert(front, x, le);
        assert(s =~= front.push(s.last()));
        assert(r.to_multiset() =~= s.to_multiset().insert(x));
        assert(le(x, s.last()));
        assert forall|i: int| 0 <= i < r.len() implies (#[trigger] r[i]) == x || s.contains(
            r[i],
        ) by {
            if i < inner.len() {
                assert(inner[i] == r[i]);
                if front.contains(inner[i]) {
                    let k = choose|k: int| 0 <= k < front.len() && front[k] == inner[i];
                    assert(s[k] == inner[i]);
                }
            } else {
                assert(s[s.len() - 1] == r[i]);
            }
        }
        assert forall|i: int, j: int| 0 <= i < j < r.len() implies le(
            #[trigger] r[i],
            #[trigger] r[j],
        ) by {
            if j < inner.len() {
                assert(le(inner[i], inner[j]));
            } else {
                assert(r[i] == inner[i]);
                if inner[i] != x {
                    let k = choose|k: int| 0 <= k < front.len() && front[k] == inner[i];
                    assert(s[k] == inner[i]);
                    assert(le(s[k], s[s.len() - 1]));
                }
            }
        }
    }
}

/// Sorting keeps what there is and puts it in order.
pub proof fn lemma_sorted<T>(s: Seq<T>, le: spec_fn(T, T) -> bool)
    requires
        is_preorder(le),
    ensures
        is_sorted(sorted(s, le), le),
        sorted(s, le).to_multiset() == s.to_multiset(),
    decreases s.len(),
{
    broadcast use vstd::seq_lib::group_to_multiset_ensures;

    if s.len() > 0 {
        lemma_sorted(s.drop_last(), le);
        lemma_insert(sorted(s.drop_last(), le), s.last(), le);
        assert(s =~= s.drop_last().push(s.last()));
    } else {
        assert(s =~= Seq::empty());
    }
}

proof fn lemma_insert_len<T>(s: Seq<T>, x: T, le: spec_fn(T, T) -> bool)
    ensures
        insert(s, x, le).len() == s.len() + 1,
    decreases s.len(),
{
    if s.len() > 0 && !le(s.last(), x) {
        lemma_insert_len(s.drop_last(), x, le);
    }
}

proof fn lemma_merge_insert<T>(a: Seq<T>, b: Seq<T>, x: T, le: spec_fn(T, T) -> bool)
    requires
        is_preorder(le),
    ensures
        merged(a, insert(b, x, le), le) == insert(merged(a, b, le), x, le),
    decreases a.len() + b.len(),
{
    let bx = insert(b, x, le);
    lemma_insert_len(b, x, le);
    if a.len() == 0 {
    } else if b.len() == 0 || le(b.last(), x) {
        assert(bx == b.push(x));
        assert(bx.drop_last() =~= b);
        if le(a.last(), x) {
            // `x` goes last on both sides.
            if b.len() > 0 && !le(a.last(), b.last()) {
                assert(merged(a, b, le).last() == a.last());
            } else if b.len() > 0 {
                assert(merged(a, b, le).last() == b.last());
            }
        } else {
            // `a` ends last on both sides.
            let front = a.drop_last();
            lemma_merge_insert(front, b, x, le);
            if b.len() > 0 {
                assert(!le(a.last(), b.last())) by {
                    if le(a.last(), b.last()) {
                        assert(le(a.last(), b.last()) && le(b.last(), x));
                    }
                }
                assert(merged(a, b, le).drop_last() =~= merged(front, b, le));
            } else {
                assert(merged(front, b, le) =~= front);
            }
        }
    } else {
        // `b` ends behind `x`.
        let back = b.drop_last();
        assert(bx.last() == b.last());
        assert(bx.drop_last() =~= insert(back, x, le));
        assert(le(x, b.last()));
        if le(a.last(), b.last()) {
            lemma_merge_insert(a, back, x, le);
            assert(merged(a, b, le).drop_last() =~= merged(a, back, le));
        } else {
            let front = a.drop_last();
            lemma_merge_insert(front, b, x, le);
            assert(merged(a, b, le).drop_last() =~= merged(front, b, le));
            assert(!le(a.last(), x)) by {
                if le(a.last(), x) {
                    assert(le(a.last(), x) && le(x, b.last()));
                }
            }
        }
    }
}

/// Sorting two halves and making them one sorts the whole.
proof fn lemma_merge_sorted<T>(a: Seq<T>, b: Seq<T>, le: spec_fn(T, T) -> bool)
    requires
        is_preorder(le),
    ensures
        merged(sorted(a, le), sorted(b, le), le) == sorted(a + b, le),
    decreases b.len(),
{
    if b.len() == 0 {
        assert(a + b =~= a);
        if sorted(a, le).len() == 0 {
            assert(sorted(a, le) =~= sorted(b, le));
        }
    } else {
        lemma_merge_sorted(a, b.drop_last(), le);
        lemma_merge_insert(sorted(a, le), sorted(b.drop_last(), le), b.last(), le);
        assert((a + b).drop_last() =~= a + b.drop_last());
    }
}

/// What can be sorted.
pub trait Sortable: View + Sized {
    /// Whether `a` does not come after `b`.
    spec fn le(a: Self::V, b: Self::V) -> bool;

    /// The order compares any two values.
    proof fn lemma_preorder()
        ensures
            is_preorder(|a: Self::V, b: Self::V| Self::le(a, b)),
    ;

    /// Whether `self` does not come after `other`.
    fn not_after(&self, other: &Self) -> (r: bool)
        ensures
            r == Self::le(self@, other@),
    ;
}

/// What a list of values stands for.
pub open spec fn views<T: View>(s: Seq<T>) -> Seq<T::V> {
    s.map_values(|x: T| x@)
}

/// The order of a type.
pub open spec fn order<T: Sortable>() -> spec_fn(T::V, T::V) -> bool {
    |a: T::V, b: T::V| T::le(a, b)
}

/// A list read from its end.
pub fn reversed<T: View>(v: Vec<T>) -> (r: Vec<T>)
    ensures
        views(r@) == views(v@).reverse(),
{
    let mut rest = v;
    let mut out: Vec<T> = Vec::new();
    let ghost all = views(v@);
    assert(views(out@) =~= Seq::empty());
    loop
        invariant
            all == views(v@),
            rest@.len() + out@.len() == v@.len(),
            forall|i: int| 0 <= i < rest@.len() ==> (#[trigger] rest@[i])@ == all[i],
            forall|i: int|
                0 <= i < out@.len() ==> (#[trigger] out@[i])@ == all[all.len() - 1 - i],
        decreases rest@.len(),
    {
        let ghost n = rest@.len();
        let ghost before = rest@;
        match rest.pop() {
            None => {
                assert(views(out@) =~= all.reverse());
                return out;
            },
            Some(x) => {
                assert(before[n - 1] == x);
                out.push(x);
            },
        }
    }
}

/// Makes two sorted lists one.
fn merge<T: Sortable>(a: Vec<T>, b: Vec<T>) -> (r: Vec<T>)
    ensures
        views(r@) == merged(views(a@), views(b@), order::<T>()),
{
    let ghost whole = merged(views(a@), views(b@), order::<T>());
    let mut x = a;
    let mut y = b;
    // The end of the result, last element first.
    let mut out: Vec<T> = Vec::new();
    assert(merged(views(x@), views(y@), order::<T>()) + views(out@).reverse() =~= whole);
    while x.len() > 0 || y.len() > 0
        invariant
            merged(views(x@), views(y@), order::<T>()) + views(out@).reverse() == whole,
        decreases x@.len() + y@.len(),
    {
        let ghost xv = views(x@);
        let ghost yv = views(y@);
        let ghost ov = views(out@);
        let from_y = if x.len() == 0 {
            true
        } else if y.len() == 0 {
            false
        } else {
            x[x.len() - 1].not_after(&y[y.len() - 1])
        };
        let next = if from_y {
            y.pop()
        } else {
            x.pop()
        };
        match next {
            None => {},
            Some(z) => {
                let ghost zv = z@;
                out.push(z);
                proof {
                    assert(views(out@) =~= ov.push(zv));
                    assert(views(out@).reverse() =~= seq![zv] + ov.reverse());
                    if from_y {
                        assert(views(y@) =~= yv.drop_last());
                        assert(yv.last() == zv);
                        if xv.len() == 0 {
                            assert(merged(xv, yv, order::<T>()) =~= yv.drop_last().push(zv));
                        }
                    } else {
                        assert(views(x@) =~= xv.drop_last());
                        assert(xv.last() == zv);
                        if yv.len() == 0 {
                            assert(xv =~= xv.drop_last().push(zv));
                            assert(merged(xv.drop_last(), yv, order::<T>()) =~= xv.drop_last());
                        }
                    }
                    let m = merged(views(x@), views(y@), order::<T>());
                    assert(merged(xv, yv, order::<T>()) =~= m.push(zv));
                    assert(m.push(zv) + ov.reverse() =~= m + (seq![zv] + ov.reverse()));
                }
            },
        }
    }
    proof {
        assert(views(x@).len() == 0 && views(y@).len() == 0);
        assert(merged(views(x@), views(y@), order::<T>()) =~= Seq::empty());
        assert(views(out@).reverse() =~= whole);
    }
    reversed(out)
}

/// Sorts a list; elements that stand level stay in their order.
pub fn sort<T: Sortable>(v: Vec<T>) -> (r: Vec<T>)
    ensures
        views(r@) == sorted(views(v@), order::<T>()),
    decreases v@.len(),
{
    proof {
        T::lemma_preorder();
    }
    let n = v.len();
    if n < 2 {
        proof {
            let s = views(v@);
            if n == 1 {
                assert(s.drop_last() =~= Seq::empty());
                assert(sorted(s.drop_last(), order::<T>()) =~= Seq::empty());
                assert(sorted(s, order::<T>()) =~= s);
            } else {
                assert(s =~= sorted(s, order::<T>()));
            }
        }
        return v;
    }
    let ghost s = views(v@);
    let mut front = v;
    let back = front.split_off(n / 2);
    proof {
        assert(views(front@) + views(back@) =~= s);
        lemma_merge_sorted(views(front@), views(back@), order::<T>());
    }
    let a = sort(front);
    let b = sort(back);
    merge(a, b)
}

impl Sortable for PathBuf {
    open spec fn le(a: PathView, b: PathView) -> bool {
        path_le(a, b)
    }

    proof fn lemma_preorder() {
        lemma_path_order();
        let f = |a: PathView, b: PathView| path_le(a, b);
        assert(f =~= |a: PathView, b: PathView| Self::le(a, b));
    }

    fn not_after(&self, other: &PathBuf) -> (r: bool) {
        path_not_after(self, other)
    }
}

/// Whether no two different elements of a list stand level.
pub open spec fn none_level<T>(s: Seq<T>, le: spec_fn(T, T) -> bool) -> bool {
    forall|i: int, j: int|
        0 <= i < s.len() && 0 <= j < s.len() && #[trigger] le(s[i], s[j]) && le(s[j], s[i])
            ==> s[i] == s[j]
}

/// A list has only one order: sorting does not depend on the order in which
/// the elements come, as long as no two different ones stand level.
pub proof fn law_one_order<T>(a: Seq<T>, b: Seq<T>, le: spec_fn(T, T) -> bool)
    requires
        is_preorder(le),
        a.to_multiset() == b.to_multiset(),
        none_level(a, le),
    ensures
        sorted(a, le) == sorted(b, le),
{
    broadcast use vstd::seq_lib::group_to_multiset_ensures;

    lemma_sorted(a, le);
    lemma_sorted(b, le);
    let x = sorted(a, le);
    assert forall|i: int, j: int|
        0 <= i < x.len() && 0 <= j < x.len() && #[trigger] le(x[i], x[j]) && le(
            x[j],
            x[i],
        ) implies x[i] == x[j] by {
        assert(x.to_multiset().count(x[i]) > 0);
        assert(x.to_multiset().count(x[j]) > 0);
        assert(a.contains(x[i]) && a.contains(x[j]));
        let k = choose|k: int| 0 <= k < a.len() && a[k] == x[i];
        let l = choose|l: int| 0 <= l < a.len() && a[l] == x[j];
        assert(le(a[k], a[l]) && le(a[l], a[k]));
    }
    lemma_same_order(x, sorted(b, le), le);
}

proof fn lemma_same_order<T>(a: Seq<T>, b: Seq<T>, le: spec_fn(T, T) -> bool)
    requires
        is_preorder(le),
        is_sorted(a, le),
        is_sorted(b, le),
        a.to_multiset() == b.to_multiset(),
        none_level(a, le),
    ensures
        a == b,
    decreases a.len(),
{
    broadcast use vstd::seq_lib::group_to_multiset_ensures;

    assert(a.len() == a.to_multiset().len());
    assert(b.len() == b.to_multiset().len());
    if a.len() == 0 {
        assert(a =~= b);
    } else {
        let x = a.last();
        let y = b.last();
        let n = a.len() - 1;
        assert(a[n] == x && b[n] == y);
        assert(a.to_multiset().count(x) > 0);
        assert(b.to_multiset().count(y) > 0);
        assert(b.contains(x) && a.contains(y));
        let i = choose|i: int| 0 <= i < a.len() && a[i] == y;
        let j = choose|j: int| 0 <= j < b.len() && b[j] == x;
        assert(le(x, x) && le(y, y));
        assert(le(a[i], a[n])) by {
            if i < n {
                assert(le(a[i], a[n]));
            }
        }
        assert(le(b[j], b[n])) by {
            if j < n {
                assert(le(b[j], b[n]));
            }
        }
        assert(x == y);
        let p = a.drop_last();
        let q = b.drop_last();
        assert(a =~= p.push(x));
        assert(b =~= q.push(x));
        assert(p.to_multiset() =~= q.to_multiset()) by {
            assert(p.push(x).to_multiset() =~= p.to_multiset().insert(x));
            assert(q.push(x).to_multiset() =~= q.to_multiset().insert(x));
            assert forall|z: T| p.to_multiset().count(z) == q.to_multiset().count(z) by {
                assert(p.to_multiset().insert(x).count(z) == q.to_multiset().insert(x).count(z));
            }
        }
        assert forall|k: int, l: int|
            0 <= k < p.len() && 0 <= l < p.len() && #[trigger] le(p[k], p[l]) && le(
                p[l],
                p[k],
            ) implies p[k] == p[l] by {
            assert(le(a[k], a[l]) && le(a[l], a[k]));
        }
        assert forall|k: int, l: int| 0 <= k < l < p.len() implies le(
            #[trigger] p[k],
            #[trigger] p[l],
        ) by {
            assert(le(a[k], a[l]));
        }
        assert forall|k: int, l: int| 0 <= k < l < q.len() implies le(
            #[trigger] q[k],
            #[trigger] q[l],
        ) by {
            assert(le(b[k], b[l]));
        }
        lemma_same_order(p, q, le);
    }
}

/// The first components in which two paths differ decide.
pub proof fn lemma_path_decided(
    front: PathView,
    x: ComponentView,
    xs: PathView,
    y: ComponentView,
    ys: PathView,
)
    requires
        component_le(x, y),
        x != y,
    ensures
        path_le(front + seq![x] + xs, front + seq![y] + ys),
        front + seq![x] + xs != front + seq![y] + ys,
    decreases front.len(),
{
    let a = front + seq![x] + xs;
    let b = front + seq![y] + ys;
    let n = front.len() as int;
    assert(a[n] == x && b[n] == y);
    if n > 0 {
        lemma_path_decided(front.skip(1), x, xs, y, ys);
        assert(a[0] == front[0] && b[0] == front[0]);
        assert(a.skip(1) =~= front.skip(1) + seq![x] + xs);
        assert(b.skip(1) =~= front.skip(1) + seq![y] + ys);
    }
}

/// A path comes before what lies below it.
pub proof fn lemma_path_extended(p: PathView, q: PathView)
    requires
        p.is_prefix_of(q),
    ensures
        path_le(p, q),
    decreases p.len(),
{
    if p.len() > 0 {
        assert(p[0] == q[0]);
        assert(p.skip(1).is_prefix_of(q.skip(1))) by {
            assert(p.skip(1) =~= q.skip(1).take(p.len() - 1));
        }
        lemma_path_extended(p.skip(1), q.skip(1));
    }
}

/// In a lexicographic order a sequence comes before those that it begins, and
/// otherwise the first difference decides.
pub proof fn law_first_difference<T>(a: Seq<T>, b: Seq<T>, le: spec_fn(T, T) -> bool)
    ensures
        lex_le(a, b, le) <==> (a.len() <= b.len() && b.take(a.len() as int) == a) || exists|k: int|
            0 <= k < a.len() && k < b.len() && #[trigger] a.take(k) == b.take(k) && a[k] != b[k] && le(
                a[k],
                b[k],
            ),
    decreases a.len(),
{
    if a.len() == 0 {
        assert(b.take(0) =~= a);
    } else if b.len() > 0 {
        let x = a.skip(1);
        let y = b.skip(1);
        if a[0] == b[0] {
            law_first_difference(x, y, le);
            if x.len() <= y.len() && y.take(x.len() as int) == x {
                assert forall|i: int| 0 <= i < a.len() implies b[i] == #[trigger] a[i] by {
                    if i > 0 {
                        assert(y.take(x.len() as int)[i - 1] == x[i - 1]);
                    }
                }
                assert(b.take(a.len() as int) =~= a);
            }
            if a.len() <= b.len() && b.take(a.len() as int) == a {
                assert forall|i: int| 0 <= i < x.len() implies y[i] == #[trigger] x[i] by {
                    assert(b.take(a.len() as int)[i + 1] == a[i + 1]);
                }
                assert(y.take(x.len() as int) =~= x);
            }
            if exists|k: int|
                0 <= k < x.len() && k < y.len() && #[trigger] x.take(k) == y.take(k) && x[k] != y[k]
                    && le(x[k], y[k]) {
                let k = choose|k: int|
                    0 <= k < x.len() && k < y.len() && #[trigger] x.take(k) == y.take(k) && x[k]
                        != y[k] && le(x[k], y[k]);
                assert forall|i: int| 0 <= i < k + 1 implies b[i] == #[trigger] a[i] by {
                    if i > 0 {
                        assert(x.take(k)[i - 1] == y.take(k)[i - 1]);
                    }
                }
                assert(a.take(k + 1) =~= b.take(k + 1));
            }
            if exists|k: int|
                0 <= k < a.len() && k < b.len() && #[trigger] a.take(k) == b.take(k) && a[k] != b[k]
                    && le(a[k], b[k]) {
                let k = choose|k: int|
                    0 <= k < a.len() && k < b.len() && #[trigger] a.take(k) == b.take(k) && a[k]
                        != b[k] && le(a[k], b[k]);
                assert forall|i: int| 0 <= i < k - 1 implies y[i] == #[trigger] x[i] by {
                    assert(a.take(k)[i + 1] == b.take(k)[i + 1]);
                }
                assert(x.take(k - 1) =~= y.take(k - 1));
            }
        } else {
            assert(a.take(0) =~= b.take(0));
            if a.len() <= b.len() && b.take(a.len() as int) == a {
                assert(b.take(a.len() as int)[0] == a[0]);
            }
            if exists|k: int|
                0 <= k < a.len() && k < b.len() && #[trigger] a.take(k) == b.take(k) && a[k] != b[k]
                    && le(a[k], b[k]) {
                let k = choose|k: int|
                    0 <= k < a.len() && k < b.len() && #[trigger] a.take(k) == b.take(k) && a[k]
                        != b[k] && le(a[k], b[k]);
                if k > 0 {
                    assert(a.take(k)[0] == b.take(k)[0]);
                }
            }
        }
    }
}

/// Names are in the order of their bytes: a name comes before those that it
/// begins, and otherwise the lower of the first two bytes that differ decides.
pub proof fn law_name_order(a: Seq<u8>, b: Seq<u8>)
    ensures
        name_le(a, b) <==> (a.len() <= b.len() && b.take(a.len() as int) == a) || exists|k: int|
            0 <= k < a.len() && k < b.len() && #[trigger] a.take(k) == b.take(k) && a[k] < b[k],
{
    law_first_difference(a, b, byte_order());
}

/// Paths are in the order of their components: a path comes before those inside
/// it, and otherwise the first two components that differ decide. Prefixes come
/// before the root, then come `.`, `..` and the names, which are in the order of
/// their bytes, as prefixes are.
pub proof fn law_path_order(a: PathView, b: PathView, x: ComponentView, y: ComponentView)
    ensures
        path_le(a, b) <==> (a.len() <= b.len() && b.take(a.len() as int) == a) || exists|k: int|
            0 <= k < a.len() && k < b.len() && #[trigger] a.take(k) == b.take(k) && a[k] != b[k]
                && component_le(a[k], b[k]),
        component_le(x, y) == match x {
            Component::Prefix(m) => match y {
                Component::Prefix(n) => name_le(m, n),
                _ => true,
            },
            Component::RootDir => !(y is Prefix),
            Component::CurDir => y is CurDir || y is ParentDir || y is Normal,
            Component::ParentDir => y is ParentDir || y is Normal,
            Component::Normal(m) => match y {
                Component::Normal(n) => name_le(m, n),
                _ => false,
            },
        },
{
    law_first_difference(a, b, component_order());
}

/// Sorting puts values into their order and neither adds nor loses any.
pub proof fn law_sorted<T>(s: Seq<T>, le: spec_fn(T, T) -> bool, x: T)
    requires
        is_preorder(le),
    ensures
        forall|i: int, j: int|
            0 <= i < j < sorted(s, le).len() ==> le(
                #[trigger] sorted(s, le)[i],
                #[trigger] sorted(s, le)[j],
            ),
        sorted(s, le).len() == s.len(),
        sorted(s, le).to_multiset().count(x) == s.to_multiset().count(x),
{
    broadcast use vstd::seq_lib::group_to_multiset_ensures;

    lemma_sorted(s, le);
    assert(sorted(s, le).to_multiset().len() == s.to_multiset().len());
}

} // verus!
