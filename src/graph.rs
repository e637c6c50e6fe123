use vstd::prelude::*;

verus! {

/// The map an association list stands for: a later entry for a key hides earlier ones.
pub open spec fn assoc_view<V: DeepView>(v: Seq<(String, V)>) -> Map<Seq<char>, V::V>
    decreases v.len(),
{
    if v.len() == 0 {
        Map::empty()
    } else {
        assoc_view(v.drop_last()).insert(v.last().0@, v.last().1.deep_view())
    }
}

proof fn lemma_assoc_tail<V: DeepView>(v: Seq<(String, V)>, i: int, k: Seq<char>)
    requires
        0 <= i <= v.len(),
        forall|j: int| i <= j < v.len() ==> (#[trigger] v[j]).0@ != k,
    ensures
        assoc_view(v).contains_key(k) == assoc_view(v.take(i)).contains_key(k),
        assoc_view(v).contains_key(k) ==> assoc_view(v)[k] == assoc_view(v.take(i))[k],
    decreases v.len() - i,
{
    if i < v.len() {
        assert forall|j: int| i <= j < v.drop_last().len() implies (#[trigger] v.drop_last()[j]).0@ != k by {
            assert(v.drop_last()[j] == v[j]);
        }
        lemma_assoc_tail(v.drop_last(), i, k);
        assert(v.drop_last().take(i) =~= v.take(i));
        assert(v[v.len() - 1].0@ != k);
    } else {
        assert(v.take(i) =~= v);
    }
}

/// Where the entry for `k` stands in an association list, if it has one.
pub fn lookup<V: DeepView>(v: &Vec<(String, V)>, k: &String) -> (r: Option<usize>)
    ensures
        match r {
            Some(i) => i < v@.len() && v@[i as int].0@ == k@ && assoc_view(v@).contains_key(k@)
                && assoc_view(v@)[k@] == v@[i as int].1.deep_view(),
            None => !assoc_view(v@).contains_key(k@),
        },
{
    let mut i: usize = v.len();
    while i > 0
        invariant
            i <= v@.len(),
            forall|j: int| i <= j < v@.len() ==> (#[trigger] v@[j]).0@ != k@,
        decreases i,
    {
        if v[i - 1].0 == *k {
            proof {
                lemma_assoc_tail(v@, i as int, k@);
                assert(v@.take(i as int).drop_last() =~= v@.take(i - 1));
            }
            return Some(i - 1);
        }
        i = i - 1;
    }
    proof {
        lemma_assoc_tail(v@, 0, k@);
    }
    None
}

/// The names a type depends on in a dependency graph; none for names without an entry.
pub open spec fn succ(g: Map<Seq<char>, Seq<Seq<char>>>, n: Seq<char>) -> Seq<Seq<char>> {
    if g.contains_key(n) {
        g[n]
    } else {
        Seq::empty()
    }
}

/// `n` is reached from `roots` in at most `k` dependency steps.
pub open spec fn reach_within(
    g: Map<Seq<char>, Seq<Seq<char>>>,
    roots: Seq<Seq<char>>,
    k: nat,
    n: Seq<char>,
) -> bool
    decreases k,
{
    if k == 0 {
        roots.contains(n)
    } else {
        reach_within(g, roots, (k - 1) as nat, n) || exists|m: Seq<char>|
            reach_within(g, roots, (k - 1) as nat, m) && #[trigger] succ(g, m).contains(n)
    }
}

/// `n` is reached from `roots` through dependency edges.
pub open spec fn reachable(g: Map<Seq<char>, Seq<Seq<char>>>, roots: Seq<Seq<char>>, n: Seq<char>) -> bool {
    exists|k: nat| reach_within(g, roots, k, n)
}

/// The monitored closure: every reachable name that has a fingerprint, with that fingerprint.
pub open spec fn closure_map(
    g: Map<Seq<char>, Seq<Seq<char>>>,
    fp: Map<Seq<char>, Seq<char>>,
    roots: Seq<Seq<char>>,
) -> Map<Seq<char>, Seq<char>> {
    Map::new(|n: Seq<char>| reachable(g, roots, n) && fp.contains_key(n), |n: Seq<char>| fp[n])
}

/// The fingerprints of the visited names.
pub open spec fn restrict(fp: Map<Seq<char>, Seq<char>>, vis: Seq<Seq<char>>) -> Map<Seq<char>, Seq<char>> {
    Map::new(|n: Seq<char>| vis.contains(n) && fp.contains_key(n), |n: Seq<char>| fp[n])
}

/// Every dependency of a visited name is visited.
pub open spec fn closed_under(g: Map<Seq<char>, Seq<Seq<char>>>, vis: Seq<Seq<char>>) -> bool {
    forall|m: Seq<char>, n: Seq<char>| vis.contains(m) && #[trigger] succ(g, m).contains(n) ==> vis.contains(n)
}

/// Every name that an association list of dependencies mentions.
pub open spec fn names_of(v: Seq<(String, Vec<String>)>) -> Seq<Seq<char>>
    decreases v.len(),
{
    if v.len() == 0 {
        Seq::empty()
    } else {
        names_of(v.drop_last()) + seq![v.last().0@] + v.last().1.deep_view()
    }
}

pub proof fn lemma_names_cover(v: Seq<(String, Vec<String>)>, m: Seq<char>, n: Seq<char>)
    requires
        succ(assoc_view(v), m).contains(n),
    ensures
        names_of(v).contains(n),
    decreases v.len(),
{
    if v.len() > 0 {
        let pre = names_of(v.drop_last());
        let e = v.last();
        if e.0@ == m {
            let j = choose|j: int| 0 <= j < e.1.deep_view().len() && e.1.deep_view()[j] == n;
            assert((pre + seq![e.0@] + e.1.deep_view())[pre.len() + 1 + j] == n);
        } else {
            lemma_names_cover(v.drop_last(), m, n);
            let j = choose|j: int| 0 <= j < pre.len() && pre[j] == n;
            assert((pre + seq![e.0@] + e.1.deep_view())[j] == n);
        }
    }
}

pub proof fn lemma_reach_roots_mono(
    g: Map<Seq<char>, Seq<Seq<char>>>,
    a: Seq<Seq<char>>,
    b: Seq<Seq<char>>,
    k: nat,
    n: Seq<char>,
)
    requires
        forall|x: Seq<char>| a.contains(x) ==> b.contains(x),
        reach_within(g, a, k, n),
    ensures
        reach_within(g, b, k, n),
    decreases k,
{
    if k > 0 {
        if reach_within(g, a, (k - 1) as nat, n) {
            lemma_reach_roots_mono(g, a, b, (k - 1) as nat, n);
        } else {
            let m = choose|m: Seq<char>| reach_within(g, a, (k - 1) as nat, m) && #[trigger] succ(g, m).contains(n);
            lemma_reach_roots_mono(g, a, b, (k - 1) as nat, m);
        }
    }
}

pub proof fn lemma_reach_step(g: Map<Seq<char>, Seq<Seq<char>>>, roots: Seq<Seq<char>>, m: Seq<char>, n: Seq<char>)
    requires
        reachable(g, roots, m),
        succ(g, m).contains(n),
    ensures
        reachable(g, roots, n),
{
    let k = choose|k: nat| reach_within(g, roots, k, m);
    assert(reach_within(g, roots, k + 1, n));
}

pub proof fn lemma_closed_contains_reach(
    g: Map<Seq<char>, Seq<Seq<char>>>,
    roots: Seq<Seq<char>>,
    vis: Seq<Seq<char>>,
    k: nat,
    n: Seq<char>,
)
    requires
        closed_under(g, vis),
        forall|x: Seq<char>| roots.contains(x) ==> vis.contains(x),
        reach_within(g, roots, k, n),
    ensures
        vis.contains(n),
    decreases k,
{
    if k > 0 {
        if reach_within(g, roots, (k - 1) as nat, n) {
            lemma_closed_contains_reach(g, roots, vis, (k - 1) as nat, n);
        } else {
            let m = choose|m: Seq<char>| reach_within(g, roots, (k - 1) as nat, m) && #[trigger] succ(g, m).contains(n);
            lemma_closed_contains_reach(g, roots, vis, (k - 1) as nat, m);
        }
    }
}

/// Consecutive names of `c` are joined by dependency edges.
pub open spec fn path_ok(g: Map<Seq<char>, Seq<Seq<char>>>, c: Seq<Seq<char>>) -> bool {
    forall|i: int| 0 <= i < c.len() - 1 ==> #[trigger] succ(g, c[i]).contains(c[i + 1])
}

/// `c` is a dependency path that ends at `target`.
pub open spec fn chain_ok(g: Map<Seq<char>, Seq<Seq<char>>>, c: Seq<Seq<char>>, target: Seq<char>) -> bool {
    c.len() > 0 && c.last() == target && path_ok(g, c)
}

/// A chain that repeats no name and meets `target` only at its end.
pub open spec fn simple_chain(g: Map<Seq<char>, Seq<Seq<char>>>, c: Seq<Seq<char>>, target: Seq<char>) -> bool {
    &&& chain_ok(g, c, target)
    &&& c.no_duplicates()
    &&& forall|i: int| 0 <= i < c.len() - 1 ==> c[i] != target
}

} // verus!
