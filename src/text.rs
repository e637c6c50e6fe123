use vstd::prelude::*;

verus! {

/// `sub` occurs in `s` at some position.
pub open spec fn has_substring(s: Seq<char>, sub: Seq<char>) -> bool {
    exists|i: int| 0 <= i && i + sub.len() <= s.len() && #[trigger] s.subrange(i, i + sub.len()) == sub
}

/// The characters of a string as a vector.
pub fn chars_of(s: &String) -> (r: Vec<char>)
    ensures
        r@ == s@,
{
    let st = s.as_str();
    let n = st.unicode_len();
    let mut r: Vec<char> = Vec::new();
    let mut i: usize = 0;
    while i < n
        invariant
            n == st@.len(),
            st@ == s@,
            i <= n,
            r@ == s@.take(i as int),
        decreases n - i,
    {
        r.push(st.get_char(i));
        proof {
            assert(r@ =~= s@.take(i as int + 1));
        }
        i = i + 1;
    }
    proof {
        assert(r@ =~= s@);
    }
    r
}

/// Whether `sub` occurs in `s`.
pub fn contains_chars(s: &Vec<char>, sub: &Vec<char>) -> (r: bool)
    ensures
        r == has_substring(s@, sub@),
{
    let n = s.len();
    let m = sub.len();
    if m > n {
        return false;
    }
    if m == 0 {
        proof {
            assert(s@.subrange(0, 0) =~= sub@);
            assert(s@.subrange(0int, 0int + sub@.len()) == sub@);
        }
        return true;
    }
    let mut i: usize = 0;
    while i <= n - m
        invariant
            n == s@.len(),
            m == sub@.len(),
            0 < m <= n,
            i <= n - m + 1,
            forall|k: int| 0 <= k < i ==> #[trigger] s@.subrange(k, k + m) != sub@,
        decreases n - m + 1 - i,
    {
        let mut j: usize = 0;
        let mut same = true;
        while j < m
            invariant
                n == s@.len(),
                m == sub@.len(),
                i + m <= n,
                j <= m,
                same ==> forall|k: int| 0 <= k < j ==> s@[i + k] == sub@[k],
                !same ==> s@.subrange(i as int, i + m) != sub@,
            decreases m - j,
        {
            if s[i + j] != sub[j] {
                same = false;
                proof {
                    assert(s@.subrange(i as int, i + m)[j as int] == s@[i + j]);
                }
            }
            j = j + 1;
        }
        if same {
            proof {
                assert(s@.subrange(i as int, i + m) =~= sub@);
            }
            return true;
        }
        i = i + 1;
    }
    proof {
        if has_substring(s@, sub@) {
            let k = choose|k: int| 0 <= k && k + sub@.len() <= s@.len() && #[trigger] s@.subrange(k, k + sub@.len()) == sub@;
            assert(s@.subrange(k, k + m) == sub@);
        }
    }
    false
}

/// Whether the text of `sub` occurs in the text of `s`.
pub fn string_contains(s: &String, sub: &String) -> (r: bool)
    ensures
        r == has_substring(s@, sub@),
{
    let a = chars_of(s);
    let b = chars_of(sub);
    contains_chars(&a, &b)
}

/// What follows the first `=` of `s`, if there is one.
pub open spec fn after_first_eq(s: Seq<char>) -> Option<Seq<char>>
    decreases s.len(),
{
    if s.len() == 0 {
        None
    } else if s[0] == '=' {
        Some(s.drop_first())
    } else {
        after_first_eq(s.drop_first())
    }
}

/// The prefix of `s` up to its first `=`, or all of `s`.
pub open spec fn before_first_eq(s: Seq<char>) -> Seq<char>
    decreases s.len(),
{
    if s.len() == 0 {
        s
    } else if s[0] == '=' {
        Seq::empty()
    } else {
        seq![s[0]] + before_first_eq(s.drop_first())
    }
}

/// The second of the pieces that `=` splits `s` into, if `s` has an `=`.
pub open spec fn second_eq_piece(s: Seq<char>) -> Option<Seq<char>> {
    match after_first_eq(s) {
        Some(rest) => Some(before_first_eq(rest)),
        None => None,
    }
}

/// The second piece of `s` split at `=`, if `s` has an `=`.
pub fn second_piece(s: &Vec<char>) -> (r: Option<Vec<char>>)
    ensures
        match r {
            Some(p) => second_eq_piece(s@) == Some(p@),
            None => second_eq_piece(s@).is_none(),
        },
{
    let n = s.len();
    let mut i: usize = 0;
    proof {
        assert(s@.skip(0) =~= s@);
    }
    while i < n && s[i] != '='
        invariant
            n == s@.len(),
            i <= n,
            after_first_eq(s@) == after_first_eq(s@.skip(i as int)),
        decreases n - i,
    {
        proof {
            assert(s@.skip(i as int).drop_first() =~= s@.skip(i as int + 1));
        }
        i = i + 1;
    }
    if i == n {
        proof {
            assert(s@.skip(i as int).len() == 0);
        }
        return None;
    }
    proof {
        assert(s@.skip(i as int).drop_first() =~= s@.skip(i as int + 1));
    }
    let ghost rest = s@.skip(i as int + 1);
    let mut p: Vec<char> = Vec::new();
    let mut j: usize = i + 1;
    while j < n && s[j] != '='
        invariant
            n == s@.len(),
            i < j <= n,
            rest == s@.skip(i as int + 1),
            before_first_eq(rest) == p@ + before_first_eq(s@.skip(j as int)),
        decreases n - j,
    {
        proof {
            assert(s@.skip(j as int).drop_first() =~= s@.skip(j as int + 1));
            assert(before_first_eq(s@.skip(j as int)) == seq![s@[j as int]] + before_first_eq(s@.skip(j as int + 1)));
        }
        let ghost prefix = p@;
        p.push(s[j]);
        proof {
            assert(prefix + (seq![s@[j as int]] + before_first_eq(s@.skip(j as int + 1))) =~= p@ + before_first_eq(
                s@.skip(j as int + 1),
            ));
        }
        j = j + 1;
    }
    proof {
        assert(before_first_eq(s@.skip(j as int)) == Seq::<char>::empty());
        assert(p@ + Seq::<char>::empty() =~= p@);
    }
    Some(p)
}

/// Strict lexicographic order by code point, as `String`'s `Ord` orders text.
pub open spec fn seq_lt(a: Seq<char>, b: Seq<char>) -> bool
    decreases a.len(),
{
    if a.len() == 0 {
        b.len() > 0
    } else if b.len() == 0 {
        false
    } else if a[0] != b[0] {
        a[0] < b[0]
    } else {
        seq_lt(a.drop_first(), b.drop_first())
    }
}

pub proof fn lemma_seq_lt_irreflexive(a: Seq<char>)
    ensures
        !seq_lt(a, a),
    decreases a.len(),
{
    if a.len() > 0 {
        lemma_seq_lt_irreflexive(a.drop_first());
    }
}

pub proof fn lemma_seq_lt_transitive(a: Seq<char>, b: Seq<char>, c: Seq<char>)
    requires
        seq_lt(a, b),
        seq_lt(b, c),
    ensures
        seq_lt(a, c),
    decreases a.len(),
{
    if a.len() > 0 && a[0] == b[0] && b[0] == c[0] {
        lemma_seq_lt_transitive(a.drop_first(), b.drop_first(), c.drop_first());
    }
}

pub proof fn lemma_seq_lt_total(a: Seq<char>, b: Seq<char>)
    requires
        a != b,
    ensures
        seq_lt(a, b) || seq_lt(b, a),
    decreases a.len(),
{
    if a.len() == 0 {
        assert(b.len() > 0) by {
            if b.len() == 0 {
                assert(a =~= b);
            }
        }
    } else if b.len() > 0 && a[0] == b[0] {
        if a.drop_first() == b.drop_first() {
            assert(a =~= seq![a[0]] + a.drop_first());
            assert(b =~= seq![b[0]] + b.drop_first());
        } else {
            lemma_seq_lt_total(a.drop_first(), b.drop_first());
        }
    }
}

/// Whether `a` orders strictly before `b`.
pub fn string_lt(a: &String, b: &String) -> (r: bool)
    ensures
        r == seq_lt(a@, b@),
{
    let x = chars_of(a);
    let y = chars_of(b);
    let mut i: usize = 0;
    proof {
        assert(x@.skip(0) =~= x@);
        assert(y@.skip(0) =~= y@);
    }
    while i < x.len() && i < y.len() && x[i] == y[i]
        invariant
            i <= x@.len(),
            i <= y@.len(),
            seq_lt(a@, b@) == seq_lt(x@.skip(i as int), y@.skip(i as int)),
            x@ == a@,
            y@ == b@,
        decreases x.len() - i,
    {
        proof {
            assert(x@.skip(i as int).drop_first() =~= x@.skip(i as int + 1));
            assert(y@.skip(i as int).drop_first() =~= y@.skip(i as int + 1));
        }
        i = i + 1;
    }
    if i == x.len() {
        i < y.len()
    } else if i == y.len() {
        false
    } else {
        x[i] < y[i]
    }
}

} // verus!
