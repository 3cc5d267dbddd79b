//! Canonical orderings on identifiers and the sort-then-deduplicate step that
//! every aggregation boundary of the library goes through.
use vstd::prelude::*;
use vstd::std_specs::iter::IteratorSpec;

verus! {

broadcast use vstd::string::group_string_axioms;

/// Lexicographic order on character sequences, by code point.
pub open spec fn str_less(a: Seq<char>, b: Seq<char>) -> bool
    decreases a.len(),
{
    if a.len() == 0 {
        b.len() > 0
    } else if b.len() == 0 {
        false
    } else if a[0] != b[0] {
        (a[0] as int) < (b[0] as int)
    } else {
        str_less(a.drop_first(), b.drop_first())
    }
}

pub proof fn lemma_str_less_irreflexive(a: Seq<char>)
    ensures
        !str_less(a, a),
    decreases a.len(),
{
    if a.len() > 0 {
        lemma_str_less_irreflexive(a.drop_first());
    }
}

pub proof fn lemma_str_less_transitive(a: Seq<char>, b: Seq<char>, c: Seq<char>)
    requires
        str_less(a, b),
        str_less(b, c),
    ensures
        str_less(a, c),
    decreases a.len(),
{
    if a.len() > 0 && b.len() > 0 && c.len() > 0 && a[0] == b[0] && b[0] == c[0] {
        lemma_str_less_transitive(a.drop_first(), b.drop_first(), c.drop_first());
    }
}

pub proof fn lemma_str_less_total(a: Seq<char>, b: Seq<char>)
    requires
        a != b,
    ensures
        str_less(a, b) || str_less(b, a),
    decreases a.len(),
{
    if a.len() > 0 && b.len() > 0 && a[0] == b[0] {
        if a.drop_first() == b.drop_first() {
            assert(a =~= seq![a[0]] + a.drop_first());
            assert(b =~= seq![b[0]] + b.drop_first());
        }
        lemma_str_less_total(a.drop_first(), b.drop_first());
    } else if a.len() > 0 && b.len() > 0 {
        assert(a[0] as int != b[0] as int);
    } else if a.len() == 0 && b.len() == 0 {
        assert(a =~= b);
    }
}

/// Compares two strings in the lexicographic order of their characters.
pub fn str_precedes(a: &str, b: &str) -> (r: bool)
    ensures
        r == str_less(a@, b@),
{
    let mut ia = a.chars();
    let mut ib = b.chars();
    let ghost mut i: int = 0;
    assert(a@.skip(0) =~= a@);
    assert(b@.skip(0) =~= b@);
    loop
        invariant
            0 <= i <= a@.len(),
            i <= b@.len(),
            ia.remaining() == a@.skip(i),
            ib.remaining() == b@.skip(i),
            str_less(a@.skip(i), b@.skip(i)) == str_less(a@, b@),
        decreases a@.len() - i,
    {
        let ghost sa = a@.skip(i);
        let ghost sb = b@.skip(i);
        match ia.next() {
            None => {
                return ib.next().is_some();
            },
            Some(ca) => match ib.next() {
                None => {
                    return false;
                },
                Some(cb) => {
                    if ca != cb {
                        return ca < cb;
                    }
                    assert(sa.len() > 0);
                    assert(sa.drop_first() =~= a@.skip(i + 1));
                    assert(sb.drop_first() =~= b@.skip(i + 1));
                    proof {
                        i = i + 1;
                    }
                },
            },
        }
    }
}


/// A type whose values are kept in one canonical order: a strict total order
/// over its view, with an executable comparison.
pub trait Canonical: View + Sized {
    spec fn before(a: Self::V, b: Self::V) -> bool;

    proof fn lemma_before_order(a: Self::V, b: Self::V, c: Self::V)
        ensures
            !Self::before(a, a),
            Self::before(a, b) && Self::before(b, c) ==> Self::before(a, c),
            a != b ==> Self::before(a, b) || Self::before(b, a),
    ;

    fn precedes(&self, other: &Self) -> (r: bool)
        ensures
            r == Self::before(self@, other@),
    ;

    fn duplicate(&self) -> (r: Self)
        ensures
            r@ == self@,
    ;
}

pub open spec fn views<T: View>(s: Seq<T>) -> Seq<T::V> {
    s.map_values(|x: T| x@)
}

/// Every element comes strictly before each one after it.
pub open spec fn strictly_sorted<T: Canonical>(s: Seq<T::V>) -> bool {
    forall|i: int, j: int| 0 <= i < j < s.len() ==> T::before(#[trigger] s[i], #[trigger] s[j])
}

/// Inserts `x` at its place in a strictly sorted vector, unless an equal
/// value is already there.
pub fn insert_sorted<T: Canonical>(v: &mut Vec<T>, x: T)
    requires
        strictly_sorted::<T>(views(old(v)@)),
    ensures
        strictly_sorted::<T>(views(final(v)@)),
        views(final(v)@).to_set() == views(old(v)@).to_set().insert(x@),
{
    let ghost s = views(v@);
    let mut p: usize = 0;
    while p < v.len() && v[p].precedes(&x)
        invariant
            p <= v.len(),
            s == views(v@),
            forall|i: int| 0 <= i < p ==> T::before(#[trigger] s[i], x@),
        decreases v.len() - p,
    {
        p = p + 1;
    }
    if p < v.len() && !x.precedes(&v[p]) {
        proof {
            T::lemma_before_order(x@, s[p as int], x@);
            assert(s[p as int] == x@);
            assert(s.contains(x@));
            assert(s.to_set().insert(x@) =~= s.to_set());
        }
        return ;
    }
    v.insert(p, x);
    proof {
        let t = views(v@);
        assert(t =~= s.take(p as int).push(x@) + s.skip(p as int));
        if p < s.len() {
            T::lemma_before_order(x@, s[p as int], x@);
        }
        assert forall|i: int, j: int| 0 <= i < j < t.len() implies T::before(
            #[trigger] t[i],
            #[trigger] t[j],
        ) by {
            if j == p as int {
                assert(t[i] == s[i]);
            } else if i == p as int {
                assert(t[j] == s[j - 1]);
                T::lemma_before_order(x@, s[p as int], s[j - 1]);
            } else if i < p && j > p {
                assert(t[i] == s[i]);
                assert(t[j] == s[j - 1]);
                T::lemma_before_order(s[i], x@, s[p as int]);
                T::lemma_before_order(s[i], s[p as int], s[j - 1]);
            } else if j < p {
                assert(t[i] == s[i] && t[j] == s[j]);
            } else {
                assert(t[i] == s[i - 1] && t[j] == s[j - 1]);
            }
        }
        assert forall|y: T::V| t.to_set().contains(y) <==> s.to_set().insert(x@).contains(y) by {
            if t.contains(y) {
                let k = choose|k: int| 0 <= k < t.len() && t[k] == y;
                if k < p {
                    assert(s[k] == y);
                } else if k > p {
                    assert(s[k - 1] == y);
                }
            }
            if s.contains(y) {
                let k = choose|k: int| 0 <= k < s.len() && s[k] == y;
                if k < p {
                    assert(t[k] == y);
                } else {
                    assert(t[k + 1] == y);
                }
            }
            if y == x@ {
                assert(t[p as int] == y);
            }
        }
        assert(t.to_set() =~= s.to_set().insert(x@));
    }
}

/// Sorts the values into their canonical order and drops repeated ones.
pub fn sort_dedup<T: Canonical>(v: Vec<T>) -> (r: Vec<T>)
    ensures
        strictly_sorted::<T>(views(r@)),
        views(r@).to_set() == views(v@).to_set(),
{
    let ghost all = views(v@).to_set();
    let mut rest = v;
    let mut out: Vec<T> = Vec::new();
    assert(views(out@).to_set() =~= Set::<T::V>::empty());
    while rest.len() > 0
        invariant
            strictly_sorted::<T>(views(out@)),
            views(out@).to_set().union(views(rest@).to_set()) == all,
        decreases rest.len(),
    {
        let ghost before_pop = views(rest@);
        let x = rest.pop().unwrap();
        proof {
            assert(before_pop =~= views(rest@).push(x@));
            assert(before_pop.to_set() =~= views(rest@).to_set().insert(x@)) by {
                assert forall|y: T::V| before_pop.contains(y) <==> views(rest@).to_set().insert(x@).contains(y) by {
                    if before_pop.contains(y) {
                        let k = choose|k: int| 0 <= k < before_pop.len() && before_pop[k] == y;
                        if k < before_pop.len() - 1 {
                            assert(views(rest@)[k] == y);
                        }
                    }
                    if views(rest@).contains(y) {
                        let k = choose|k: int| 0 <= k < views(rest@).len() && views(rest@)[k] == y;
                        assert(before_pop[k] == y);
                    }
                    if y == x@ {
                        assert(before_pop[before_pop.len() - 1] == y);
                    }
                }
            }
        }
        insert_sorted(&mut out, x);
        assert(views(out@).to_set().union(views(rest@).to_set()) =~= all);
    }
    assert(views(rest@).to_set() =~= Set::<T::V>::empty());
    assert(views(out@).to_set() =~= all);
    out
}

/// No element comes after one that it should precede.
pub open spec fn sorted_by<T: Canonical>(s: Seq<T::V>) -> bool {
    forall|i: int, j: int| 0 <= i < j < s.len() ==> !T::before(#[trigger] s[j], #[trigger] s[i])
}

/// Inserts `x` after every value that does not come after it, keeping
/// equal values.
pub fn insert_keep<T: Canonical>(v: &mut Vec<T>, x: T)
    requires
        sorted_by::<T>(views(old(v)@)),
    ensures
        sorted_by::<T>(views(final(v)@)),
        views(final(v)@).to_multiset() == views(old(v)@).to_multiset().insert(x@),
{
    let ghost s = views(v@);
    let mut p: usize = 0;
    while p < v.len() && !x.precedes(&v[p])
        invariant
            p <= v.len(),
            s == views(v@),
            forall|i: int| 0 <= i < p ==> !T::before(x@, #[trigger] s[i]),
        decreases v.len() - p,
    {
        p = p + 1;
    }
    let ghost xv = x@;
    v.insert(p, x);
    proof {
        let t = views(v@);
        assert(t =~= s.insert(p as int, xv));
        vstd::seq_lib::to_multiset_insert(s, p as int, xv);
        assert forall|i: int, j: int| 0 <= i < j < t.len() implies !T::before(
            #[trigger] t[j],
            #[trigger] t[i],
        ) by {
            if j == p as int {
                assert(t[i] == s[i]);
            } else if i == p as int {
                assert(t[j] == s[j - 1]);
                assert(T::before(xv, s[p as int]));
                T::lemma_before_order(s[j - 1], xv, s[p as int]);
                if p as int != j - 1 {
                    assert(!T::before(s[j - 1], s[p as int]));
                }
                T::lemma_before_order(xv, xv, xv);
            } else if i < p && j > p {
                assert(t[i] == s[i]);
                assert(t[j] == s[j - 1]);
            } else if j < p {
                assert(t[i] == s[i] && t[j] == s[j]);
            } else {
                assert(t[i] == s[i - 1] && t[j] == s[j - 1]);
            }
        }
    }
}

/// Sorts the values, keeping equal ones.
pub fn sort_keep<T: Canonical>(v: Vec<T>) -> (r: Vec<T>)
    ensures
        sorted_by::<T>(views(r@)),
        views(r@).to_multiset() == views(v@).to_multiset(),
{
    broadcast use vstd::multiset::group_multiset_axioms;

    let ghost all = views(v@).to_multiset();
    let mut rest = v;
    let mut out: Vec<T> = Vec::new();
    proof {
        views(out@).to_multiset_ensures();
        vstd::multiset::lemma_multiset_empty_len(views(out@).to_multiset());
        assert(views(out@).to_multiset().add(views(rest@).to_multiset()) =~= all);
    }
    while rest.len() > 0
        invariant
            sorted_by::<T>(views(out@)),
            views(out@).to_multiset().add(views(rest@).to_multiset()) == all,
        decreases rest.len(),
    {
        let ghost before_pop = views(rest@);
        let x = rest.pop().unwrap();
        proof {
            assert(before_pop =~= views(rest@).push(x@));
            vstd::seq_lib::to_multiset_build(views(rest@), x@);
        }
        let ghost out_before = views(out@).to_multiset();
        insert_keep(&mut out, x);
        assert(views(out@).to_multiset().add(views(rest@).to_multiset()) =~= all);
    }
    proof {
        views(rest@).to_multiset_ensures();
        vstd::multiset::lemma_multiset_empty_len(views(rest@).to_multiset());
        assert(views(out@).to_multiset() =~= all);
    }
    out
}

/// A strictly sorted sequence is fixed by the set of its elements.
pub proof fn lemma_sorted_unique<T: Canonical>(a: Seq<T::V>, b: Seq<T::V>)
    requires
        strictly_sorted::<T>(a),
        strictly_sorted::<T>(b),
        a.to_set() == b.to_set(),
    ensures
        a == b,
    decreases a.len() + b.len(),
{
    if a.len() == 0 || b.len() == 0 {
        if a.len() > 0 {
            assert(a.to_set().contains(a[0]));
        }
        if b.len() > 0 {
            assert(b.to_set().contains(b[0]));
        }
        assert(a =~= b);
        return ;
    }
    // the first element is the least of the set on both sides
    assert(a.to_set().contains(a[0]));
    assert(b.to_set().contains(b[0]));
    assert(b.contains(a[0]));
    assert(a.contains(b[0]));
    let ka = choose|k: int| 0 <= k < b.len() && b[k] == a[0];
    let kb = choose|k: int| 0 <= k < a.len() && a[k] == b[0];
    if a[0] != b[0] {
        assert(ka > 0 && kb > 0);
        T::lemma_before_order(a[0], a[kb], a[0]);
        T::lemma_before_order(b[0], b[ka], b[0]);
        T::lemma_before_order(a[0], b[0], a[0]);
    }
    let ra = a.drop_first();
    let rb = b.drop_first();
    assert forall|y: T::V| ra.contains(y) <==> rb.contains(y) by {
        if ra.contains(y) {
            let k = choose|k: int| 0 <= k < ra.len() && ra[k] == y;
            assert(a[k + 1] == y);
            assert(a.to_set().contains(y));
            let m = choose|m: int| 0 <= m < b.len() && b[m] == y;
            T::lemma_before_order(a[0], y, a[0]);
            assert(m != 0);
            assert(rb[m - 1] == y);
        }
        if rb.contains(y) {
            let k = choose|k: int| 0 <= k < rb.len() && rb[k] == y;
            assert(b[k + 1] == y);
            assert(b.to_set().contains(y));
            let m = choose|m: int| 0 <= m < a.len() && a[m] == y;
            T::lemma_before_order(b[0], y, b[0]);
            assert(m != 0);
            assert(ra[m - 1] == y);
        }
    }
    assert(ra.to_set() =~= rb.to_set());
    lemma_sorted_unique::<T>(ra, rb);
    assert(a =~= seq![a[0]] + ra);
    assert(b =~= seq![b[0]] + rb);
}

/// Whether two strings hold the same characters.
pub fn str_equal(a: &str, b: &str) -> (r: bool)
    ensures
        r == (a@ == b@),
{
    let r = !str_precedes(a, b) && !str_precedes(b, a);
    proof {
        lemma_str_less_irreflexive(a@);
        if a@ != b@ {
            lemma_str_less_total(a@, b@);
        }
    }
    r
}

impl Canonical for String {
    open spec fn before(a: Seq<char>, b: Seq<char>) -> bool {
        str_less(a, b)
    }

    proof fn lemma_before_order(a: Seq<char>, b: Seq<char>, c: Seq<char>) {
        lemma_str_less_irreflexive(a);
        if str_less(a, b) && str_less(b, c) {
            lemma_str_less_transitive(a, b, c);
        }
        if a != b {
            lemma_str_less_total(a, b);
        }
    }

    fn precedes(&self, other: &String) -> (r: bool) {
        str_precedes(self.as_str(), other.as_str())
    }

    fn duplicate(&self) -> (r: String) {
        self.clone()
    }
}

/// Order on optional strings: an absent value comes before any present one.
pub open spec fn opt_less(a: Option<Seq<char>>, b: Option<Seq<char>>) -> bool {
    match (a, b) {
        (None, Some(_)) => true,
        (Some(x), Some(y)) => str_less(x, y),
        _ => false,
    }
}

pub proof fn lemma_opt_less_order(a: Option<Seq<char>>, b: Option<Seq<char>>, c: Option<Seq<char>>)
    ensures
        !opt_less(a, a),
        opt_less(a, b) && opt_less(b, c) ==> opt_less(a, c),
        a != b ==> opt_less(a, b) || opt_less(b, a),
{
    if let Some(x) = a {
        lemma_str_less_irreflexive(x);
        if let Some(y) = b {
            if x != y {
                lemma_str_less_total(x, y);
            }
            if let Some(z) = c {
                if str_less(x, y) && str_less(y, z) {
                    lemma_str_less_transitive(x, y, z);
                }
            }
        }
    }
}

pub open spec fn opt_view(o: Option<String>) -> Option<Seq<char>> {
    match o {
        Some(s) => Some(s@),
        None => None,
    }
}

pub fn opt_precedes(a: &Option<String>, b: &Option<String>) -> (r: bool)
    ensures
        r == opt_less(opt_view(*a), opt_view(*b)),
{
    match (a, b) {
        (None, Some(_)) => true,
        (Some(x), Some(y)) => str_precedes(x.as_str(), y.as_str()),
        _ => false,
    }
}

pub fn opt_same(a: &Option<String>, b: &Option<String>) -> (r: bool)
    ensures
        r == (opt_view(*a) == opt_view(*b)),
{
    match (a, b) {
        (None, None) => true,
        (Some(x), Some(y)) => x.eq(y),
        _ => false,
    }
}

pub fn opt_duplicate(a: &Option<String>) -> (r: Option<String>)
    ensures
        opt_view(r) == opt_view(*a),
{
    match a {
        Some(x) => Some(x.clone()),
        None => None,
    }
}

/// A copy of a list of strings.
pub fn copy_strings(v: &Vec<String>) -> (r: Vec<String>)
    ensures
        views(r@) == views(v@),
{
    let mut out: Vec<String> = Vec::new();
    let mut i: usize = 0;
    while i < v.len()
        invariant
            i <= v.len(),
            views(out@) == views(v@).take(i as int),
        decreases v.len() - i,
    {
        let ghost before = views(out@);
        let c = v[i].clone();
        out.push(c);
        assert(views(out@) =~= before.push(v@[i as int]@));
        assert(views(v@).take(i + 1) =~= views(v@).take(i as int).push(v@[i as int]@));
        i = i + 1;
    }
    assert(views(v@).take(i as int) =~= views(v@));
    out
}

} // verus!
