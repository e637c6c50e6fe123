use vstd::prelude::*;
use crate::fingerprint::{
    field_is_skip, kept_fields, lemma_skip_field_keeps_digest, lemma_sum_digest_depends_on_kept_fields, record_digest,
    record_fingerprint, should_skip_field, sum_digest, sum_fingerprint,
};
use crate::graph::{
    assoc_view, chain_ok, closed_under, path_ok, simple_chain, closure_map, lemma_closed_contains_reach, lemma_names_cover,
    lemma_reach_roots_mono, lemma_reach_step, lookup, names_of, reach_within, reachable, restrict,
    succ,
};
use crate::model::{calc_dep_types, type_idents, Field, Item, TypeExpr, Variant};
use crate::rpc::{check_rpc_field, rpc_violation};
use crate::text::{
    has_substring, lemma_seq_lt_irreflexive, lemma_seq_lt_total, lemma_seq_lt_transitive, seq_lt,
    string_contains, string_lt,
};

verus! {

/// A wire field that lacks the encoding marker its type asks for.
pub struct RpcError {
    pub file: String,
    pub ty_name: String,
    pub field_name: String,
    pub expected: String,
}

pub struct RpcErrorView {
    pub file: Seq<char>,
    pub ty_name: Seq<char>,
    pub field_name: Seq<char>,
    pub expected: Seq<char>,
}

impl View for RpcError {
    type V = RpcErrorView;

    open spec fn view(&self) -> RpcErrorView {
        RpcErrorView {
            file: self.file@,
            ty_name: self.ty_name@,
            field_name: self.field_name@,
            expected: self.expected@,
        }
    }
}

/// What a scan has gathered so far.
#[verifier::ext_equal]
pub struct ScanView {
    pub dir: Seq<char>,
    pub types: Seq<Seq<char>>,
    /// Type name to digest, for declarations outside the wire boundary.
    pub fingerprints: Map<Seq<char>, Seq<char>>,
    /// Type name to the names its fields mention.
    pub deps: Map<Seq<char>, Seq<Seq<char>>>,
    /// The payload types of the store marker.
    pub roots: Seq<Seq<char>>,
    pub errors: Seq<RpcErrorView>,
}

/// The analysis state built while walking a source tree.
pub struct SynVisitor {
    types: Vec<String>,
    type_fingerprint: Vec<(String, String)>,
    type_deps: Vec<(String, Vec<String>)>,
    store_types: Vec<String>,
    dir: String,
    rpc_errors: Vec<RpcError>,
}

impl View for SynVisitor {
    type V = ScanView;

    closed spec fn view(&self) -> ScanView {
        ScanView {
            dir: self.dir@,
            types: self.types.deep_view(),
            fingerprints: assoc_view(self.type_fingerprint@),
            deps: assoc_view(self.type_deps@),
            roots: self.store_types.deep_view(),
            errors: self.rpc_errors@.map_values(|e: RpcError| e@),
        }
    }
}

/// The name of the sum type whose payload types are the roots of the monitored closure.
pub open spec fn store_marker() -> Seq<char> {
    "KeyValue"@
}

/// The dependency names of the kept fields, in order.
pub open spec fn kept_idents(fs: Seq<Field>) -> Seq<Seq<char>>
    decreases fs.len(),
{
    if fs.len() == 0 {
        Seq::empty()
    } else if field_is_skip(fs.last()) {
        kept_idents(fs.drop_last())
    } else {
        kept_idents(fs.drop_last()) + type_idents(fs.last().ty)
    }
}

pub open spec fn variant_idents(vs: Seq<Variant>) -> Seq<Seq<char>>
    decreases vs.len(),
{
    if vs.len() == 0 {
        Seq::empty()
    } else {
        variant_idents(vs.drop_last()) + kept_idents(vs.last().fields@)
    }
}

/// `s` with `x` put before its first name that does not order before `x`, unless `x` stands
/// there already.
pub open spec fn insert_sorted(s: Seq<Seq<char>>, x: Seq<char>) -> Seq<Seq<char>>
    decreases s.len(),
{
    if s.len() == 0 {
        seq![x]
    } else if seq_lt(s[0], x) {
        seq![s[0]] + insert_sorted(s.drop_first(), x)
    } else if s[0] == x {
        s
    } else {
        seq![x] + s
    }
}

/// The names of `new`, sorted, each once.
pub open spec fn sort_dedup(new: Seq<Seq<char>>) -> Seq<Seq<char>>
    decreases new.len(),
{
    if new.len() == 0 {
        Seq::empty()
    } else {
        insert_sorted(sort_dedup(new.drop_last()), new.last())
    }
}

/// Each name orders strictly before every later one, so none repeats.
pub open spec fn strictly_sorted(s: Seq<Seq<char>>) -> bool {
    forall|i: int, j: int| 0 <= i < j < s.len() ==> seq_lt(#[trigger] s[i], #[trigger] s[j])
}

proof fn lemma_insert_sorted(s: Seq<Seq<char>>, x: Seq<char>)
    requires
        strictly_sorted(s),
    ensures
        strictly_sorted(insert_sorted(s, x)),
        forall|y: Seq<char>| #[trigger] insert_sorted(s, x).contains(y) <==> s.contains(y) || y == x,
    decreases s.len(),
{
    let r = insert_sorted(s, x);
    if s.len() == 0 {
        assert(r[0] == x);
    } else if seq_lt(s[0], x) {
        let rest = s.drop_first();
        assert forall|i: int, j: int| 0 <= i < j < rest.len() implies seq_lt(#[trigger] rest[i], #[trigger] rest[j]) by {
            assert(rest[i] == s[i + 1] && rest[j] == s[j + 1]);
        }
        lemma_insert_sorted(rest, x);
        let t = insert_sorted(rest, x);
        assert(r == seq![s[0]] + t);
        assert forall|y: Seq<char>| #[trigger] r.contains(y) <==> s.contains(y) || y == x by {
            if r.contains(y) {
                let k = choose|k: int| 0 <= k < r.len() && r[k] == y;
                if k > 0 {
                    assert(t[k - 1] == y);
                    assert(t.contains(y));
                    if rest.contains(y) {
                        let m = choose|m: int| 0 <= m < rest.len() && rest[m] == y;
                        assert(s[m + 1] == y);
                    }
                } else {
                    assert(s[0] == y);
                }
            }
            if s.contains(y) {
                let m = choose|m: int| 0 <= m < s.len() && s[m] == y;
                if m == 0 {
                    assert(r[0] == y);
                } else {
                    assert(rest[m - 1] == y);
                    assert(t.contains(y));
                    let k = choose|k: int| 0 <= k < t.len() && t[k] == y;
                    assert(r[k + 1] == y);
                }
            }
            if y == x {
                assert(t.contains(x));
                let k = choose|k: int| 0 <= k < t.len() && t[k] == x;
                assert(r[k + 1] == y);
            }
        }
        assert forall|i: int, j: int| 0 <= i < j < r.len() implies seq_lt(#[trigger] r[i], #[trigger] r[j]) by {
            if i == 0 {
                assert(r[j] == t[j - 1]);
                assert(t.contains(t[j - 1]));
                if t[j - 1] != x {
                    assert(rest.contains(t[j - 1]));
                    let m = choose|m: int| 0 <= m < rest.len() && rest[m] == t[j - 1];
                    assert(s[m + 1] == t[j - 1]);
                }
            } else {
                assert(r[i] == t[i - 1] && r[j] == t[j - 1]);
            }
        }
    } else if s[0] == x {
    } else {
        lemma_seq_lt_total(s[0], x);
        assert(r == seq![x] + s);
        assert forall|y: Seq<char>| #[trigger] r.contains(y) <==> s.contains(y) || y == x by {
            if r.contains(y) {
                let k = choose|k: int| 0 <= k < r.len() && r[k] == y;
                if k > 0 {
                    assert(s[k - 1] == y);
                }
            }
            if s.contains(y) {
                let m = choose|m: int| 0 <= m < s.len() && s[m] == y;
                assert(r[m + 1] == y);
            }
            if y == x {
                assert(r[0] == y);
            }
        }
        assert forall|i: int, j: int| 0 <= i < j < r.len() implies seq_lt(#[trigger] r[i], #[trigger] r[j]) by {
            if i == 0 {
                assert(r[j] == s[j - 1]);
                if j > 1 {
                    assert(seq_lt(s[0], s[j - 1]));
                    lemma_seq_lt_transitive(x, s[0], s[j - 1]);
                }
            } else {
                assert(r[i] == s[i - 1] && r[j] == s[j - 1]);
            }
        }
    }
}

/// The batch of dependency names recorded for a declaration is sorted, holds each name once,
/// and holds exactly the names its field types mention.
pub proof fn lemma_sort_dedup(new: Seq<Seq<char>>)
    ensures
        strictly_sorted(sort_dedup(new)),
        sort_dedup(new).no_duplicates(),
        forall|y: Seq<char>| #[trigger] sort_dedup(new).contains(y) <==> new.contains(y),
    decreases new.len(),
{
    if new.len() > 0 {
        lemma_sort_dedup(new.drop_last());
        lemma_insert_sorted(sort_dedup(new.drop_last()), new.last());
        assert forall|y: Seq<char>| #[trigger] sort_dedup(new).contains(y) <==> new.contains(y) by {
            if new.drop_last().contains(y) {
                let m = choose|m: int| 0 <= m < new.drop_last().len() && new.drop_last()[m] == y;
                assert(new[m] == y);
            }
            if new.contains(y) && y != new.last() {
                let m = choose|m: int| 0 <= m < new.len() && new[m] == y;
                assert(m != new.len() - 1);
                assert(new.drop_last()[m] == y);
            }
            if y == new.last() {
                assert(new[new.len() - 1] == y);
            }
        }
    }
    let r = sort_dedup(new);
    assert forall|i: int, j: int| 0 <= i < r.len() && 0 <= j < r.len() && i != j implies r[i] != r[j] by {
        if i < j {
            assert(seq_lt(r[i], r[j]));
            lemma_seq_lt_irreflexive(r[i]);
        } else {
            assert(seq_lt(r[j], r[i]));
            lemma_seq_lt_irreflexive(r[j]);
        }
    }
}

proof fn lemma_kept_idents_concat(a: Seq<Field>, b: Seq<Field>)
    ensures
        kept_idents(a + b) == kept_idents(a) + kept_idents(b),
    decreases b.len(),
{
    if b.len() == 0 {
        assert(a + b =~= a);
        assert(kept_idents(a) + kept_idents(b) =~= kept_idents(a));
    } else {
        assert((a + b).drop_last() =~= a + b.drop_last());
        lemma_kept_idents_concat(a, b.drop_last());
        if !field_is_skip(b.last()) {
            assert(kept_idents(a) + kept_idents(b) =~= kept_idents(a) + kept_idents(b.drop_last()) + type_idents(
                b.last().ty,
            ));
        }
    }
}

proof fn lemma_skip_keeps_idents(fs: Seq<Field>, i: int, f: Field)
    requires
        0 <= i <= fs.len(),
        field_is_skip(f),
    ensures
        kept_idents(fs.insert(i, f)) == kept_idents(fs),
{
    let pre = fs.take(i);
    let post = fs.skip(i);
    assert(fs.insert(i, f) =~= (pre + seq![f]) + post);
    assert(fs =~= pre + post);
    lemma_kept_idents_concat(pre + seq![f], post);
    lemma_kept_idents_concat(pre, seq![f]);
    lemma_kept_idents_concat(pre, post);
    assert(seq![f].drop_last() =~= Seq::<Field>::empty());
    assert(seq![f].last() == f);
    assert(kept_idents(Seq::<Field>::empty()) =~= Seq::empty());
    assert(kept_idents(pre) + Seq::<Seq<char>>::empty() =~= kept_idents(pre));
}

proof fn lemma_variant_idents_update(vs: Seq<Variant>, j: int, v: Variant)
    requires
        0 <= j < vs.len(),
        kept_idents(v.fields@) == kept_idents(vs[j].fields@),
    ensures
        variant_idents(vs.update(j, v)) == variant_idents(vs),
    decreases vs.len(),
{
    let ws = vs.update(j, v);
    if j < vs.len() - 1 {
        assert(ws.drop_last() =~= vs.drop_last().update(j, v));
        lemma_variant_idents_update(vs.drop_last(), j, v);
        assert(ws.last() == vs.last());
    } else {
        assert(ws.drop_last() =~= vs.drop_last());
    }
}

/// Scanning a record with one more skip-annotated field, anywhere, leaves the scan state
/// exactly as scanning it without: digest, dependencies and all.
pub proof fn lemma_skip_field_keeps_record_scan(
    s: ScanView,
    file: Seq<char>,
    in_rpc: bool,
    name: Seq<char>,
    fs: Seq<Field>,
    i: int,
    f: Field,
)
    requires
        0 <= i <= fs.len(),
        field_is_skip(f),
    ensures
        scan_record(s, file, in_rpc, name, fs.insert(i, f)) == scan_record(s, file, in_rpc, name, fs),
{
    lemma_skip_field_keeps_digest(name, fs, i, f);
    lemma_skip_keeps_idents(fs, i, f);
    lemma_skip_keeps_errors(file, name, fs, i, f);
}

proof fn lemma_field_errors_concat(file: Seq<char>, owner: Seq<char>, a: Seq<Field>, b: Seq<Field>)
    ensures
        field_errors(file, owner, a + b) == field_errors(file, owner, a) + field_errors(file, owner, b),
    decreases b.len(),
{
    if b.len() == 0 {
        assert(a + b =~= a);
        assert(field_errors(file, owner, a) + field_errors(file, owner, b) =~= field_errors(file, owner, a));
    } else {
        assert((a + b).drop_last() =~= a + b.drop_last());
        lemma_field_errors_concat(file, owner, a, b.drop_last());
        assert(field_errors(file, owner, a) + field_errors(file, owner, b) =~= field_errors(file, owner, a + b));
    }
}

proof fn lemma_skip_keeps_errors(file: Seq<char>, owner: Seq<char>, fs: Seq<Field>, i: int, f: Field)
    requires
        0 <= i <= fs.len(),
        field_is_skip(f),
    ensures
        field_errors(file, owner, fs.insert(i, f)) == field_errors(file, owner, fs),
{
    let pre = fs.take(i);
    let post = fs.skip(i);
    assert(fs.insert(i, f) =~= (pre + seq![f]) + post);
    assert(fs =~= pre + post);
    lemma_field_errors_concat(file, owner, pre + seq![f], post);
    lemma_field_errors_concat(file, owner, pre, seq![f]);
    lemma_field_errors_concat(file, owner, pre, post);
    assert(seq![f].drop_last() =~= Seq::<Field>::empty());
    assert(seq![f].last() == f);
    assert(field_errors(file, owner, Seq::<Field>::empty()) =~= Seq::empty());
    assert(field_errors(file, owner, pre) + Seq::<RpcErrorView>::empty() =~= field_errors(file, owner, pre));
}

proof fn lemma_variant_errors_update(file: Seq<char>, owner: Seq<char>, vs: Seq<Variant>, j: int, v: Variant)
    requires
        0 <= j < vs.len(),
        field_errors(file, owner, v.fields@) == field_errors(file, owner, vs[j].fields@),
    ensures
        variant_errors(file, owner, vs.update(j, v)) == variant_errors(file, owner, vs),
    decreases vs.len(),
{
    let ws = vs.update(j, v);
    if j < vs.len() - 1 {
        assert(ws.drop_last() =~= vs.drop_last().update(j, v));
        lemma_variant_errors_update(file, owner, vs.drop_last(), j, v);
        assert(ws.last() == vs.last());
    } else {
        assert(ws.drop_last() =~= vs.drop_last());
    }
}

/// Scanning a sum type with one more skip-annotated payload field in one variant leaves the
/// scan state exactly as scanning it without: digest, dependencies and roots.
pub proof fn lemma_skip_field_keeps_sum_scan(
    s: ScanView,
    file: Seq<char>,
    in_rpc: bool,
    name: Seq<char>,
    vs: Seq<Variant>,
    j: int,
    v: Variant,
    i: int,
    f: Field,
)
    requires
        0 <= j < vs.len(),
        v.name@ == vs[j].name@,
        v.fields@ == vs[j].fields@.insert(i, f),
        0 <= i <= vs[j].fields@.len(),
        field_is_skip(f),
    ensures
        scan_sum(s, file, in_rpc, name, vs.update(j, v)) == scan_sum(s, file, in_rpc, name, vs),
{
    let ws = vs.update(j, v);
    lemma_skip_field_keeps_digest(name, vs[j].fields@, i, f);
    lemma_skip_keeps_idents(vs[j].fields@, i, f);
    lemma_skip_keeps_errors(file, name, vs[j].fields@, i, f);
    assert forall|k: int| 0 <= k < ws.len() implies (#[trigger] ws[k]).name@ == vs[k].name@
        && kept_fields(ws[k].fields@) == kept_fields(vs[k].fields@) by {}
    lemma_sum_digest_depends_on_kept_fields(name, ws, vs);
    lemma_variant_idents_update(vs, j, v);
    lemma_variant_errors_update(file, name, vs, j, v);
}

/// `old` followed by the names of `new` it lacks, each once, in order of first appearance.
pub open spec fn union_append(old: Seq<Seq<char>>, new: Seq<Seq<char>>) -> Seq<Seq<char>>
    decreases new.len(),
{
    if new.len() == 0 {
        old
    } else {
        let acc = union_append(old, new.drop_last());
        if acc.contains(new.last()) {
            acc
        } else {
            acc.push(new.last())
        }
    }
}

/// The dependency graph after recording `new` for `name`.
pub open spec fn add_deps(
    g: Map<Seq<char>, Seq<Seq<char>>>,
    name: Seq<char>,
    new: Seq<Seq<char>>,
) -> Map<Seq<char>, Seq<Seq<char>>> {
    if new.len() == 0 {
        g
    } else {
        g.insert(name, union_append(succ(g, name), sort_dedup(new)))
    }
}

/// The diagnostics for the wire fields of one field list.
pub open spec fn field_errors(file: Seq<char>, owner: Seq<char>, fs: Seq<Field>) -> Seq<RpcErrorView>
    decreases fs.len(),
{
    if fs.len() == 0 {
        Seq::empty()
    } else {
        let rest = field_errors(file, owner, fs.drop_last());
        let f = fs.last();
        if field_is_skip(f) {
            rest
        } else {
            match rpc_violation(f) {
                Some(m) => rest.push(
                    RpcErrorView { file, ty_name: owner, field_name: f.name@, expected: m },
                ),
                None => rest,
            }
        }
    }
}

pub open spec fn variant_errors(file: Seq<char>, owner: Seq<char>, vs: Seq<Variant>) -> Seq<RpcErrorView>
    decreases vs.len(),
{
    if vs.len() == 0 {
        Seq::empty()
    } else {
        variant_errors(file, owner, vs.drop_last()) + field_errors(file, owner, vs.last().fields@)
    }
}

/// Scanning a record: wire records are validated, others fingerprinted.
pub open spec fn scan_record(s: ScanView, file: Seq<char>, in_rpc: bool, name: Seq<char>, fs: Seq<Field>) -> ScanView {
    if in_rpc {
        ScanView { types: s.types.push(name), errors: s.errors + field_errors(file, name, fs), ..s }
    } else {
        ScanView {
            types: s.types.push(name),
            fingerprints: s.fingerprints.insert(name, record_digest(name, fs)),
            deps: add_deps(s.deps, name, kept_idents(fs)),
            ..s
        }
    }
}

/// Scanning a sum type; the store marker also sets the roots.
pub open spec fn scan_sum(s: ScanView, file: Seq<char>, in_rpc: bool, name: Seq<char>, vs: Seq<Variant>) -> ScanView {
    if in_rpc {
        ScanView { types: s.types.push(name), errors: s.errors + variant_errors(file, name, vs), ..s }
    } else {
        ScanView {
            types: s.types.push(name),
            fingerprints: s.fingerprints.insert(name, sum_digest(name, vs)),
            deps: add_deps(s.deps, name, variant_idents(vs)),
            roots: if name == store_marker() {
                variant_idents(vs)
            } else {
                s.roots
            },
            ..s
        }
    }
}

/// Scanning an alias records what it names.
pub open spec fn scan_alias(s: ScanView, name: Seq<char>, ty: TypeExpr) -> ScanView {
    ScanView { types: s.types.push(name), deps: add_deps(s.deps, name, type_idents(ty)), ..s }
}

pub open spec fn scan_item(s: ScanView, file: Seq<char>, in_rpc: bool, item: Item) -> ScanView {
    match item {
        Item::Record { name, fields } => scan_record(s, file, in_rpc, name@, fields@),
        Item::Sum { name, variants } => scan_sum(s, file, in_rpc, name@, variants@),
        Item::Alias { name, ty } => scan_alias(s, name@, ty),
        Item::Other => s,
    }
}

pub open spec fn scan_items(s: ScanView, file: Seq<char>, in_rpc: bool, items: Seq<Item>) -> ScanView
    decreases items.len(),
{
    if items.len() == 0 {
        s
    } else {
        scan_item(scan_items(s, file, in_rpc, items.drop_last()), file, in_rpc, items.last())
    }
}

/// Files under a generated-code or migrations directory are left out.
pub open spec fn path_excluded(path: Seq<char>) -> bool {
    has_substring(path, "/gen/"@) || has_substring(path, "/migrations/"@)
}

/// Files under an `rpc` directory form the wire boundary.
pub open spec fn path_in_rpc(path: Seq<char>) -> bool {
    has_substring(path, "/rpc/"@)
}

/// A file the walk reads: its name does not start with `.` and ends with `.rs`.
pub open spec fn is_source_name(name: Seq<char>) -> bool {
    &&& !(name.len() > 0 && name[0] == '.')
    &&& name.len() >= 3
    &&& name.subrange(name.len() - 3, name.len() as int) == ".rs"@
}

/// Whether the walk reads the file of this name.
pub fn is_source_file_name(name: &String) -> (r: bool)
    ensures
        r == is_source_name(name@),
{
    let c = crate::text::chars_of(name);
    let n = c.len();
    if n > 0 && c[0] == '.' {
        return false;
    }
    if n < 3 {
        return false;
    }
    proof {
        reveal_strlit(".rs");
        assert(".rs"@ =~= seq!['.', 'r', 's']);
    }
    let r = c[n - 3] == '.' && c[n - 2] == 'r' && c[n - 1] == 's';
    proof {
        if r {
            assert(name@.subrange(n - 3, n as int) =~= ".rs"@);
        } else {
            let t = name@.subrange(n - 3, n as int);
            assert(t[0] == c@[n - 3] && t[1] == c@[n - 2] && t[2] == c@[n - 1]);
            assert(t != ".rs"@);
        }
    }
    r
}

/// Scanning the parsed declarations of one source file.
pub open spec fn scan_file(s: ScanView, path: Seq<char>, items: Seq<Item>) -> ScanView {
    if path_excluded(path) {
        s
    } else {
        scan_items(s, path, path_in_rpc(path), items)
    }
}

fn contains_name(v: &Vec<String>, k: &String) -> (r: bool)
    ensures
        r == v.deep_view().contains(k@),
{
    let mut i: usize = 0;
    while i < v.len()
        invariant
            i <= v@.len(),
            forall|j: int| 0 <= j < i ==> v@[j]@ != k@,
        decreases v.len() - i,
    {
        if v[i] == *k {
            proof {
                assert(v.deep_view()[i as int] == k@);
            }
            return true;
        }
        i = i + 1;
    }
    proof {
        if v.deep_view().contains(k@) {
            let j = choose|j: int| 0 <= j < v.deep_view().len() && v.deep_view()[j] == k@;
            assert(v@[j]@ == k@);
        }
    }
    false
}

fn clone_names(v: &Vec<String>) -> (r: Vec<String>)
    ensures
        r.deep_view() == v.deep_view(),
{
    let mut r: Vec<String> = Vec::new();
    let mut i: usize = 0;
    while i < v.len()
        invariant
            i <= v@.len(),
            r.deep_view() == v.deep_view().take(i as int),
        decreases v.len() - i,
    {
        let ghost before = r.deep_view();
        let c = v[i].clone();
        r.push(c);
        proof {
            assert(r.deep_view() =~= before.push(v@[i as int]@));
            assert(r.deep_view() =~= v.deep_view().take(i as int + 1));
        }
        i = i + 1;
    }
    proof {
        assert(v.deep_view().take(i as int) =~= v.deep_view());
    }
    r
}

/// Appends the names of `items` to `out`.
fn push_names(out: &mut Vec<String>, items: &Vec<String>)
    ensures
        final(out).deep_view() == old(out).deep_view() + items.deep_view(),
{
    let ghost start = out.deep_view();
    let mut i: usize = 0;
    while i < items.len()
        invariant
            i <= items@.len(),
            out.deep_view() == start + items.deep_view().take(i as int),
        decreases items.len() - i,
    {
        let ghost before = out.deep_view();
        let c = items[i].clone();
        out.push(c);
        proof {
            assert(out.deep_view() =~= before.push(items@[i as int]@));
            assert(out.deep_view() =~= start + items.deep_view().take(i as int + 1));
        }
        i = i + 1;
    }
    proof {
        assert(items.deep_view().take(i as int) =~= items.deep_view());
    }
}

/// `s` is a dependency chain from a root to `target`, written after the store marker's name.
pub open spec fn rendered_chain(
    g: Map<Seq<char>, Seq<Seq<char>>>,
    roots: Seq<Seq<char>>,
    target: Seq<char>,
    s: Seq<char>,
) -> bool {
    exists|c: Seq<Seq<char>>|
        chain_ok(g, c, target) && roots.contains(c[0]) && s == join_arrow(seq![store_marker()] + c)
}

/// The chains the search from `t` after `cur` finds, in the order it finds them: depth first,
/// each name's dependencies in stored order, a name already on the chain ending its branch.
/// `fuel` bounds the chain length and is never the binding limit where it is called.
pub open spec fn dfs_chains(
    g: Map<Seq<char>, Seq<Seq<char>>>,
    target: Seq<char>,
    cur: Seq<Seq<char>>,
    t: Seq<char>,
    fuel: nat,
) -> Seq<Seq<Seq<char>>>
    decreases fuel, 0nat, 0nat,
{
    if cur.contains(t) {
        Seq::empty()
    } else if t == target {
        seq![cur.push(t)]
    } else if fuel == 0 {
        Seq::empty()
    } else {
        dfs_list(g, target, cur.push(t), succ(g, t), (fuel - 1) as nat)
    }
}

/// The chains found through each of `ds` after `cur`, in the order of `ds`.
pub open spec fn dfs_list(
    g: Map<Seq<char>, Seq<Seq<char>>>,
    target: Seq<char>,
    cur: Seq<Seq<char>>,
    ds: Seq<Seq<char>>,
    fuel: nat,
) -> Seq<Seq<Seq<char>>>
    decreases fuel, 1nat, ds.len(),
{
    if ds.len() == 0 {
        Seq::empty()
    } else {
        dfs_list(g, target, cur, ds.drop_last(), fuel) + dfs_chains(g, target, cur, ds.last(), fuel)
    }
}

/// The chains found from each root in turn.
pub open spec fn root_chains(
    g: Map<Seq<char>, Seq<Seq<char>>>,
    target: Seq<char>,
    roots: Seq<Seq<char>>,
    fuel: nat,
) -> Seq<Seq<Seq<char>>>
    decreases roots.len(),
{
    if roots.len() == 0 {
        Seq::empty()
    } else {
        root_chains(g, target, roots.drop_last(), fuel) + dfs_chains(g, target, Seq::empty(), roots.last(), fuel)
    }
}

pub open spec fn chains_view(res: Seq<Vec<String>>) -> Seq<Seq<Seq<char>>> {
    res.map_values(|v: Vec<String>| v.deep_view())
}

/// Some entry of `res` from index `from` on holds the chain `c`.
pub open spec fn found(res: Seq<Vec<String>>, from: int, c: Seq<Seq<char>>) -> bool {
    exists|i: int| from <= i < res.len() && res[i].deep_view() == c
}

/// Names joined by ` -> `.
pub open spec fn join_arrow(c: Seq<Seq<char>>) -> Seq<char>
    decreases c.len(),
{
    if c.len() == 0 {
        Seq::empty()
    } else if c.len() == 1 {
        c[0]
    } else {
        join_arrow(c.drop_last()) + " -> "@ + c.last()
    }
}

/// The names of `c` joined by ` -> `.
pub fn join_chain(c: &Vec<String>) -> (r: String)
    ensures
        r@ == join_arrow(c.deep_view()),
{
    let mut r = String::new();
    let mut i: usize = 0;
    proof {
        assert(c.deep_view().take(0) =~= Seq::<Seq<char>>::empty());
    }
    while i < c.len()
        invariant
            i <= c@.len(),
            r@ == join_arrow(c.deep_view().take(i as int)),
        decreases c.len() - i,
    {
        proof {
            assert(c.deep_view().take(i as int + 1).drop_last() =~= c.deep_view().take(i as int));
            assert(c.deep_view()[i as int] == c@[i as int]@);
        }
        if i > 0 {
            r.append(" -> ");
        } else {
            proof {
                assert(r@ =~= Seq::<char>::empty());
            }
        }
        r.append(c[i].as_str());
        proof {
            if i == 0 {
                assert(r@ =~= c@[0]@);
            }
        }
        i = i + 1;
    }
    proof {
        assert(c.deep_view().take(i as int) =~= c.deep_view());
    }
    r
}

/// Puts `x` into the sorted list `s` at its place, unless it is there.
fn insert_name_sorted(s: &mut Vec<String>, x: &String)
    ensures
        final(s).deep_view() == insert_sorted(old(s).deep_view(), x@),
{
    let ghost s0 = s.deep_view();
    let mut p: usize = 0;
    proof {
        assert(s0.take(0) + s0.skip(0) =~= s0);
        assert(s0.skip(0) =~= s0);
        assert(s0.take(0) + insert_sorted(s0.skip(0), x@) =~= insert_sorted(s0, x@));
    }
    while p < s.len() && string_lt(&s[p], x)
        invariant
            p <= s0.len(),
            s.deep_view() == s0,
            insert_sorted(s0, x@) == s0.take(p as int) + insert_sorted(s0.skip(p as int), x@),
        decreases s.len() - p,
    {
        proof {
            assert(s0[p as int] == s@[p as int]@);
            assert(s0.skip(p as int)[0] == s0[p as int]);
            assert(s0.skip(p as int).drop_first() =~= s0.skip(p as int + 1));
            assert(s0.take(p as int + 1) =~= s0.take(p as int).push(s0[p as int]));
            assert(s0.take(p as int) + (seq![s0[p as int]] + insert_sorted(s0.skip(p as int + 1), x@))
                =~= s0.take(p as int + 1) + insert_sorted(s0.skip(p as int + 1), x@));
        }
        p = p + 1;
    }
    if p < s.len() && s[p] == *x {
        proof {
            assert(s0[p as int] == s@[p as int]@);
            assert(s0.skip(p as int)[0] == s0[p as int]);
            assert(s0.take(p as int) + s0.skip(p as int) =~= s0);
        }
        return;
    }
    let ghost before = s.deep_view();
    s.insert(p, x.clone());
    proof {
        if p < s0.len() {
            assert(s0[p as int] == old(s)@[p as int]@);
            assert(s0.skip(p as int)[0] == s0[p as int]);
        } else {
            assert(s0.skip(p as int) =~= Seq::<Seq<char>>::empty());
        }
        assert(s.deep_view() =~= s0.take(p as int) + (seq![x@] + s0.skip(p as int)));
    }
}

/// The dependency names of the kept fields of `fs`, in order.
fn kept_dep_types(fs: &Vec<Field>) -> (r: Vec<String>)
    ensures
        r.deep_view() == kept_idents(fs@),
{
    let mut r: Vec<String> = Vec::new();
    let mut i: usize = 0;
    proof {
        assert(r.deep_view() =~= kept_idents(fs@.take(0)));
    }
    while i < fs.len()
        invariant
            i <= fs@.len(),
            r.deep_view() == kept_idents(fs@.take(i as int)),
        decreases fs.len() - i,
    {
        proof {
            assert(fs@.take(i as int + 1).drop_last() =~= fs@.take(i as int));
        }
        if !should_skip_field(&fs[i]) {
            let d = calc_dep_types(&fs[i].ty);
            push_names(&mut r, &d);
        }
        i = i + 1;
    }
    proof {
        assert(fs@.take(i as int) =~= fs@);
    }
    r
}

/// The dependency names of all variants' kept fields, in order.
fn variant_dep_types(vs: &Vec<Variant>) -> (r: Vec<String>)
    ensures
        r.deep_view() == variant_idents(vs@),
{
    let mut r: Vec<String> = Vec::new();
    let mut i: usize = 0;
    proof {
        assert(r.deep_view() =~= variant_idents(vs@.take(0)));
    }
    while i < vs.len()
        invariant
            i <= vs@.len(),
            r.deep_view() == variant_idents(vs@.take(i as int)),
        decreases vs.len() - i,
    {
        proof {
            assert(vs@.take(i as int + 1).drop_last() =~= vs@.take(i as int));
        }
        let d = kept_dep_types(&vs[i].fields);
        push_names(&mut r, &d);
        i = i + 1;
    }
    proof {
        assert(vs@.take(i as int) =~= vs@);
    }
    r
}

impl SynVisitor {
    /// A visitor with nothing scanned yet, for the source tree at `dir`.
    pub fn new(dir: &str) -> (r: Self)
        ensures
            r@ == (ScanView {
                dir: dir@,
                types: Seq::empty(),
                fingerprints: Map::empty(),
                deps: Map::empty(),
                roots: Seq::empty(),
                errors: Seq::empty(),
            }),
    {
        let r = SynVisitor {
            types: Vec::new(),
            type_fingerprint: Vec::new(),
            type_deps: Vec::new(),
            store_types: Vec::new(),
            dir: String::from_str(dir),
            rpc_errors: Vec::new(),
        };
        proof {
            assert(r@ =~= (ScanView {
                dir: dir@,
                types: Seq::empty(),
                fingerprints: Map::empty(),
                deps: Map::empty(),
                roots: Seq::empty(),
                errors: Seq::empty(),
            }));
        }
        r
    }

    /// Validates the wire fields of one field list, recording a diagnostic for each one that
    /// lacks its marker.
    fn check_fields(&mut self, file: &String, owner: &String, fs: &Vec<Field>)
        ensures
            final(self)@ == (ScanView { errors: old(self)@.errors + field_errors(file@, owner@, fs@), ..old(self)@ }),
    {
        let ghost s0 = self@;
        let mut i: usize = 0;
        proof {
            assert(self@ =~= (ScanView { errors: s0.errors + field_errors(file@, owner@, fs@.take(0)), ..s0 }));
        }
        while i < fs.len()
            invariant
                i <= fs@.len(),
                self@ == (ScanView { errors: s0.errors + field_errors(file@, owner@, fs@.take(i as int)), ..s0 }),
            decreases fs.len() - i,
        {
            proof {
                assert(fs@.take(i as int + 1).drop_last() =~= fs@.take(i as int));
            }
            if !should_skip_field(&fs[i]) {
                match check_rpc_field(&fs[i]) {
                    Some(m) => {
                        let e = RpcError {
                            file: file.clone(),
                            ty_name: owner.clone(),
                            field_name: fs[i].name.clone(),
                            expected: m,
                        };
                        let ghost ev = e@;
                        let ghost before = self.rpc_errors@.map_values(|e: RpcError| e@);
                        self.rpc_errors.push(e);
                        proof {
                            assert(self.rpc_errors@.map_values(|e: RpcError| e@) =~= before.push(ev));
                            assert(field_errors(file@, owner@, fs@.take(i as int + 1)) == field_errors(file@, owner@, fs@.take(i as int)).push(ev));
                            assert(self@ =~= (ScanView { errors: s0.errors + field_errors(file@, owner@, fs@.take(i as int + 1)), ..s0 }));
                        }
                    },
                    None => {},
                }
            }
            i = i + 1;
        }
        proof {
            assert(fs@.take(i as int) =~= fs@);
        }
    }

    fn record_type(&mut self, name: &String)
        ensures
            final(self)@ == (ScanView { types: old(self)@.types.push(name@), ..old(self)@ }),
    {
        self.types.push(name.clone());
        proof {
            assert(final(self)@ =~= (ScanView { types: old(self)@.types.push(name@), ..old(self)@ }));
        }
    }

    fn record_fingerprint_entry(&mut self, name: &String, fp: String)
        ensures
            final(self)@ == (ScanView { fingerprints: old(self)@.fingerprints.insert(name@, fp@), ..old(self)@ }),
    {
        self.type_fingerprint.push((name.clone(), fp));
        proof {
            assert(self.type_fingerprint@.drop_last() =~= old(self).type_fingerprint@);
            assert(final(self)@ =~= (ScanView { fingerprints: old(self)@.fingerprints.insert(name@, fp@), ..old(self)@ }));
        }
    }

    /// Scans one record declaration.
    pub fn visit_record(&mut self, file: &String, in_rpc: bool, name: &String, fields: &Vec<Field>)
        ensures
            final(self)@ == scan_record(old(self)@, file@, in_rpc, name@, fields@),
    {
        self.record_type(name);
        if in_rpc {
            self.check_fields(file, name, fields);
        } else {
            let fp = record_fingerprint(name, fields);
            self.record_fingerprint_entry(name, fp);
            let deps = kept_dep_types(fields);
            self.add_type_deps(name, &deps);
        }
        proof {
            assert(final(self)@ =~= scan_record(old(self)@, file@, in_rpc, name@, fields@));
        }
    }

    /// Scans one sum declaration; the store marker's payload types become the roots.
    pub fn visit_sum(&mut self, file: &String, in_rpc: bool, name: &String, variants: &Vec<Variant>)
        ensures
            final(self)@ == scan_sum(old(self)@, file@, in_rpc, name@, variants@),
    {
        let ghost s0 = self@;
        self.record_type(name);
        if in_rpc {
            let mut i: usize = 0;
            let ghost s1 = self@;
            proof {
                assert(self@ =~= (ScanView { errors: s1.errors + variant_errors(file@, name@, variants@.take(0)), ..s1 }));
            }
            while i < variants.len()
                invariant
                    i <= variants@.len(),
                    self@ == (ScanView { errors: s1.errors + variant_errors(file@, name@, variants@.take(i as int)), ..s1 }),
                decreases variants.len() - i,
            {
                proof {
                    assert(variants@.take(i as int + 1).drop_last() =~= variants@.take(i as int));
                }
                self.check_fields(file, name, &variants[i].fields);
                proof {
                    assert(self@ =~= (ScanView { errors: s1.errors + variant_errors(file@, name@, variants@.take(i as int + 1)), ..s1 }));
                }
                i = i + 1;
            }
            proof {
                assert(variants@.take(i as int) =~= variants@);
            }
        } else {
            let fp = sum_fingerprint(name, variants);
            self.record_fingerprint_entry(name, fp);
            let deps = variant_dep_types(variants);
            self.add_type_deps(name, &deps);
            if *name == String::from_str("KeyValue") {
                self.store_types = deps;
            }
        }
        proof {
            assert(final(self)@ =~= scan_sum(s0, file@, in_rpc, name@, variants@));
        }
    }

    /// Scans one alias declaration.
    pub fn visit_alias(&mut self, name: &String, ty: &TypeExpr)
        ensures
            final(self)@ == scan_alias(old(self)@, name@, *ty),
    {
        self.record_type(name);
        let deps = calc_dep_types(ty);
        self.add_type_deps(name, &deps);
        proof {
            assert(final(self)@ =~= scan_alias(old(self)@, name@, *ty));
        }
    }

    /// Scans one declaration of a file, by its kind.
    pub fn visit_item(&mut self, file: &String, in_rpc: bool, item: &Item)
        ensures
            final(self)@ == scan_item(old(self)@, file@, in_rpc, *item),
    {
        match item {
            Item::Record { name, fields } => self.visit_record(file, in_rpc, name, fields),
            Item::Sum { name, variants } => self.visit_sum(file, in_rpc, name, variants),
            Item::Alias { name, ty } => self.visit_alias(name, ty),
            Item::Other => {},
        }
    }

    /// Scans the parsed declarations of the source file at `path`, unless the path lies under a
    /// generated-code or migrations directory; under an `rpc` directory they are validated
    /// instead of fingerprinted.
    pub fn visit_source_file(&mut self, path: &String, items: &Vec<Item>)
        ensures
            final(self)@ == scan_file(old(self)@, path@, items@),
    {
        if string_contains(path, &String::from_str("/gen/")) || string_contains(path, &String::from_str("/migrations/")) {
            return;
        }
        let in_rpc = string_contains(path, &String::from_str("/rpc/"));
        let ghost s0 = self@;
        let mut i: usize = 0;
        proof {
            assert(items@.take(0) =~= Seq::<Item>::empty());
        }
        while i < items.len()
            invariant
                i <= items@.len(),
                in_rpc == path_in_rpc(path@),
                self@ == scan_items(s0, path@, in_rpc, items@.take(i as int)),
            decreases items.len() - i,
        {
            proof {
                assert(items@.take(i as int + 1).drop_last() =~= items@.take(i as int));
            }
            self.visit_item(path, in_rpc, &items[i]);
            i = i + 1;
        }
        proof {
            assert(items@.take(i as int) =~= items@);
        }
    }

    /// Walks the dependency graph from `ty_name`, adding every name not yet visited to
    /// `visited` and the fingerprints of those that have one to `fingerprints`.
    fn collect_fingerprints(
        &self,
        ty_name: &String,
        visited: &mut Vec<String>,
        fingerprints: &mut Vec<(String, String)>,
    )
        requires
            closed_under(self@.deps, old(visited).deep_view()),
            assoc_view(old(fingerprints)@) == restrict(self@.fingerprints, old(visited).deep_view()),
        ensures
            closed_under(self@.deps, final(visited).deep_view()),
            assoc_view(final(fingerprints)@) == restrict(self@.fingerprints, final(visited).deep_view()),
            final(visited).deep_view().contains(ty_name@),
            forall|n: Seq<char>| old(visited).deep_view().contains(n) ==> final(visited).deep_view().contains(n),
            forall|n: Seq<char>|
                final(visited).deep_view().contains(n) && !old(visited).deep_view().contains(n)
                    ==> reachable(self@.deps, seq![ty_name@], n),
    {
        let ghost g = self@.deps;
        let ghost fp = self@.fingerprints;
        let ghost t = seq![ty_name@];
        let ghost v0 = visited.deep_view();
        let ghost u = (names_of(self.type_deps@) + v0 + t).to_set();
        let ghost mut vs = v0.to_set();
        let mut stack: Vec<String> = Vec::new();
        stack.push(ty_name.clone());
        proof {
            assert(stack.deep_view() =~= t);
            assert(t[0] == ty_name@);
            assert(reach_within(g, t, 0, ty_name@));
            vstd::seq_lib::seq_to_set_is_finite(names_of(self.type_deps@) + v0 + t);
            assert forall|n: Seq<char>| vs.contains(n) implies u.contains(n) by {
                let j = choose|j: int| 0 <= j < v0.len() && v0[j] == n;
                assert((names_of(self.type_deps@) + v0 + t)[names_of(self.type_deps@).len() + j] == n);
            }
            assert((names_of(self.type_deps@) + v0 + t)[(names_of(self.type_deps@).len() + v0.len()) as int] == ty_name@);
            vstd::set_lib::lemma_len_subset(vs, u);
        }
        while stack.len() > 0
            invariant
                g == self@.deps,
                fp == self@.fingerprints,
                t == seq![ty_name@],
                u == (names_of(self.type_deps@) + v0 + t).to_set(),
                u.finite(),
                vs.finite(),
                vs.len() <= u.len(),
                forall|n: Seq<char>| vs.contains(n) <==> visited.deep_view().contains(n),
                forall|n: Seq<char>| vs.contains(n) ==> u.contains(n),
                forall|n: Seq<char>| stack.deep_view().contains(n) ==> u.contains(n),
                forall|n: Seq<char>| v0.contains(n) ==> vs.contains(n),
                forall|n: Seq<char>| vs.contains(n) && !v0.contains(n) ==> reachable(g, t, n),
                forall|n: Seq<char>| stack.deep_view().contains(n) ==> reachable(g, t, n),
                forall|m: Seq<char>, n: Seq<char>|
                    vs.contains(m) && #[trigger] succ(g, m).contains(n) ==> vs.contains(n)
                        || stack.deep_view().contains(n),
                vs.contains(ty_name@) || stack.deep_view().contains(ty_name@),
                assoc_view(fingerprints@) == restrict(fp, visited.deep_view()),
            decreases u.len() - vs.len(), stack.len(),
        {
            let ghost st0 = stack.deep_view();
            let n = stack.pop().unwrap();
            let ghost nv = n@;
            proof {
                assert(stack.deep_view() =~= st0.drop_last());
                assert(st0[st0.len() - 1] == nv);
                assert(st0.contains(nv));
                assert forall|x: Seq<char>| stack.deep_view().contains(x) implies st0.contains(x) by {
                    let j = choose|j: int| 0 <= j < stack.deep_view().len() && stack.deep_view()[j] == x;
                    assert(st0[j] == x);
                }
                assert forall|x: Seq<char>| st0.contains(x) && x != nv implies stack.deep_view().contains(x) by {
                    let j = choose|j: int| 0 <= j < st0.len() && st0[j] == x;
                    assert(j != st0.len() - 1);
                    assert(stack.deep_view()[j] == x);
                }
            }
            if !contains_name(visited, &n) {
                let ghost vis0 = visited.deep_view();
                let ghost vs0 = vs;
                visited.push(n.clone());
                proof {
                    assert(visited.deep_view() =~= vis0.push(nv));
                    vs = vs.insert(nv);
                    assert forall|x: Seq<char>| vs.contains(x) <==> visited.deep_view().contains(x) by {
                        if x == nv {
                            assert(visited.deep_view()[vis0.len() as int] == nv);
                        }
                        if vis0.contains(x) {
                            let j = choose|j: int| 0 <= j < vis0.len() && vis0[j] == x;
                            assert(visited.deep_view()[j] == x);
                        }
                        if visited.deep_view().contains(x) && x != nv {
                            let j = choose|j: int| 0 <= j < visited.deep_view().len() && visited.deep_view()[j] == x;
                            assert(vis0[j] == x);
                        }
                    }
                    vstd::set_lib::lemma_len_subset(vs, u);
                }
                let ghost fps0 = fingerprints@;
                proof {
                    assert forall|x: Seq<char>| visited.deep_view().contains(x) <==> vis0.contains(x) || x == nv by {
                        assert(vs.contains(x) <==> vs0.contains(x) || x == nv);
                        assert(vs0.contains(x) <==> vis0.contains(x));
                    }
                    assert(fp == assoc_view(self.type_fingerprint@));
                }
                match lookup(&self.type_fingerprint, &n) {
                    Some(i) => {
                        let f = self.type_fingerprint[i].1.clone();
                        fingerprints.push((n.clone(), f));
                        proof {
                            assert(fingerprints@.drop_last() =~= fps0);
                            assert(f@ == fp[nv]);
                            assert(assoc_view(fingerprints@) == assoc_view(fps0).insert(nv, fp[nv]));
                            assert(assoc_view(fingerprints@) =~= restrict(fp, visited.deep_view()));
                        }
                    },
                    None => {
                        proof {
                            assert(assoc_view(fingerprints@) =~= restrict(fp, visited.deep_view()));
                        }
                    },
                }
                let ghost st1 = stack.deep_view();
                match lookup(&self.type_deps, &n) {
                    Some(j) => {
                        push_names(&mut stack, &self.type_deps[j].1);
                        proof {
                            assert(succ(g, nv) == self.type_deps@[j as int].1.deep_view());
                        }
                    },
                    None => {
                        proof {
                            assert(succ(g, nv) =~= Seq::<Seq<char>>::empty());
                        }
                    },
                }
                proof {
                    let sn = succ(g, nv);
                    assert(stack.deep_view() == st1 + sn);
                    assert forall|x: Seq<char>| stack.deep_view().contains(x) implies st1.contains(x) || sn.contains(x) by {
                        let j = choose|j: int| 0 <= j < stack.deep_view().len() && stack.deep_view()[j] == x;
                        if j < st1.len() {
                            assert(st1[j] == x);
                        } else {
                            assert(sn[j - st1.len()] == x);
                        }
                    }
                    assert forall|x: Seq<char>| st1.contains(x) implies stack.deep_view().contains(x) by {
                        let j = choose|j: int| 0 <= j < st1.len() && st1[j] == x;
                        assert(stack.deep_view()[j] == x);
                    }
                    assert forall|x: Seq<char>| sn.contains(x) implies stack.deep_view().contains(x) by {
                        let j = choose|j: int| 0 <= j < sn.len() && sn[j] == x;
                        assert(stack.deep_view()[st1.len() + j] == x);
                    }
                    assert forall|x: Seq<char>| sn.contains(x) implies u.contains(x) && reachable(g, t, x) by {
                        lemma_names_cover(self.type_deps@, nv, x);
                        let j = choose|j: int| 0 <= j < names_of(self.type_deps@).len() && names_of(self.type_deps@)[j] == x;
                        assert((names_of(self.type_deps@) + v0 + t)[j] == x);
                        if v0.contains(nv) {
                            assert(vs0.contains(nv));
                        }
                        lemma_reach_step(g, t, nv, x);
                    }
                    assert(vs.len() == vs0.len() + 1);
                }
            }
        }
        proof {
            assert forall|m: Seq<char>, n: Seq<char>|
                visited.deep_view().contains(m) && #[trigger] succ(g, m).contains(n)
                implies visited.deep_view().contains(n) by {
                assert(vs.contains(m));
            }
        }
    }

    /// The monitored closure: every type reachable from the store marker's payload types that
    /// has a fingerprint, with that fingerprint.
    pub fn construct_finger_print(&self) -> (r: Vec<(String, String)>)
        ensures
            assoc_view(r@) == closure_map(self@.deps, self@.fingerprints, self@.roots),
    {
        let ghost g = self@.deps;
        let ghost fp = self@.fingerprints;
        let ghost roots = self@.roots;
        let mut out: Vec<(String, String)> = Vec::new();
        let mut visited: Vec<String> = Vec::new();
        proof {
            assert(assoc_view(out@) =~= restrict(fp, visited.deep_view()));
        }
        let mut i: usize = 0;
        while i < self.store_types.len()
            invariant
                g == self@.deps,
                fp == self@.fingerprints,
                roots == self@.roots,
                roots == self.store_types.deep_view(),
                i <= self.store_types@.len(),
                closed_under(g, visited.deep_view()),
                assoc_view(out@) == restrict(fp, visited.deep_view()),
                forall|k: int| 0 <= k < i ==> visited.deep_view().contains(#[trigger] roots[k]),
                forall|n: Seq<char>| visited.deep_view().contains(n) ==> reachable(g, roots, n),
            decreases self.store_types.len() - i,
        {
            let ghost vis0 = visited.deep_view();
            self.collect_fingerprints(&self.store_types[i], &mut visited, &mut out);
            proof {
                let r = self.store_types@[i as int]@;
                assert(roots[i as int] == r);
                assert forall|n: Seq<char>| visited.deep_view().contains(n) implies reachable(g, roots, n) by {
                    if !vis0.contains(n) {
                        let k = choose|k: nat| reach_within(g, seq![r], k, n);
                        assert forall|x: Seq<char>| seq![r].contains(x) implies roots.contains(x) by {
                            assert(seq![r][0] == x);
                        }
                        lemma_reach_roots_mono(g, seq![r], roots, k, n);
                    }
                }
            }
            i = i + 1;
        }
        proof {
            assert forall|n: Seq<char>| reachable(g, roots, n) implies visited.deep_view().contains(n) by {
                let k = choose|k: nat| reach_within(g, roots, k, n);
                assert forall|x: Seq<char>| roots.contains(x) implies visited.deep_view().contains(x) by {
                    let j = choose|j: int| 0 <= j < roots.len() && roots[j] == x;
                    assert(visited.deep_view().contains(roots[j]));
                }
                lemma_closed_contains_reach(g, roots, visited.deep_view(), k, n);
            }
            assert(assoc_view(out@) =~= closure_map(g, fp, roots));
        }
        out
    }

    /// The payload types of the store marker: the roots of the monitored closure.
    pub fn store_types(&self) -> (r: &Vec<String>)
        ensures
            r.deep_view() == self@.roots,
    {
        &self.store_types
    }

    /// The source tree this visitor scans.
    pub fn dir(&self) -> (r: &String)
        ensures
            r@ == self@.dir,
    {
        &self.dir
    }

    /// Whether some wire field lacks its encoding marker.
    pub fn has_error(&self) -> (r: bool)
        ensures
            r == (self@.errors.len() > 0),
    {
        self.rpc_errors.len() > 0
    }

    /// The diagnostics of the wire fields that lack their marker, in scan order.
    pub fn rpc_errors(&self) -> (r: &Vec<RpcError>)
        ensures
            r@.map_values(|e: RpcError| e@) == self@.errors,
    {
        &self.rpc_errors
    }

    /// Every name the dependency graph mentions, together with the roots.
    closed spec fn universe(&self) -> Set<Seq<char>> {
        (names_of(self.type_deps@) + self.store_types.deep_view()).to_set()
    }

    /// How many distinct names the dependency graph and the roots mention: no simple chain
    /// is longer.
    pub closed spec fn name_count(&self) -> nat {
        self.universe().len()
    }

    proof fn lemma_universe(&self, m: Seq<char>, n: Seq<char>)
        requires
            succ(self@.deps, m).contains(n),
        ensures
            self.universe().contains(n),
            self.universe().finite(),
    {
        lemma_names_cover(self.type_deps@, m, n);
        let j = choose|j: int| 0 <= j < names_of(self.type_deps@).len() && names_of(self.type_deps@)[j] == n;
        assert((names_of(self.type_deps@) + self.store_types.deep_view())[j] == n);
        vstd::seq_lib::seq_to_set_is_finite(names_of(self.type_deps@) + self.store_types.deep_view());
    }

    /// Extends `current_chain` through `ty_name` towards `target`, adding to `result` every
    /// simple chain that starts so; a name already on the chain ends that branch, so cycles
    /// are cut.
    fn recurisve_find_type(
        &self,
        target: &String,
        ty_name: &String,
        current_chain: &Vec<String>,
        result: &mut Vec<Vec<String>>,
    )
        requires
            current_chain.deep_view().no_duplicates(),
            !current_chain.deep_view().contains(target@),
            forall|n: Seq<char>| current_chain.deep_view().contains(n) ==> self.universe().contains(n),
            self.universe().contains(ty_name@),
            self.universe().finite(),
            path_ok(self@.deps, current_chain.deep_view().push(ty_name@)),
        ensures
            final(result)@.len() >= old(result)@.len(),
            forall|i: int| 0 <= i < old(result)@.len() ==> #[trigger] final(result)@[i] == old(result)@[i],
            forall|i: int|
                old(result)@.len() <= i < final(result)@.len() ==> simple_chain(self@.deps, #[trigger] final(result)@[i].deep_view(), target@)
                    && final(result)@[i].deep_view().len() > current_chain@.len()
                    && final(result)@[i].deep_view().take(current_chain@.len() as int + 1)
                    == current_chain.deep_view().push(ty_name@),
            forall|c: Seq<Seq<char>>|
                simple_chain(self@.deps, c, target@) && c.len() > current_chain@.len()
                    && #[trigger] c.take(current_chain@.len() as int + 1) == current_chain.deep_view().push(ty_name@)
                    ==> found(final(result)@, old(result)@.len() as int, c),
            current_chain.deep_view().contains(ty_name@) ==> final(result)@ == old(result)@,
            ty_name@ == target@ && !current_chain.deep_view().contains(ty_name@) ==> final(result)@.len()
                == old(result)@.len() + 1,
            chains_view(final(result)@) == chains_view(old(result)@) + dfs_chains(
                self@.deps,
                target@,
                current_chain.deep_view(),
                ty_name@,
                (self.universe().len() - current_chain@.len()) as nat,
            ),
        decreases self.universe().len() - current_chain@.len(),
    {
        let ghost cur = current_chain.deep_view();
        let ghost n = cur.len() as int;
        if contains_name(current_chain, ty_name) {
            proof {
                assert forall|c: Seq<Seq<char>>|
                    simple_chain(self@.deps, c, target@) && c.len() > n
                        && #[trigger] c.take(n + 1) == cur.push(ty_name@)
                        implies found(result@, result@.len() as int, c) by {
                    let j = choose|j: int| 0 <= j < cur.len() && cur[j] == ty_name@;
                    assert(c[j] == c.take(n + 1)[j]);
                    assert(c[n] == c.take(n + 1)[n]);
                }
                assert(chains_view(result@) + Seq::<Seq<Seq<char>>>::empty() =~= chains_view(result@));
            }
            return;
        }
        let mut next = clone_names(current_chain);
        next.push(ty_name.clone());
        proof {
            assert(next.deep_view() =~= cur.push(ty_name@));
            cur.unique_seq_to_set();
            assert(cur.to_set().subset_of(self.universe()));
            vstd::set_lib::lemma_len_subset(cur.to_set(), self.universe());
            assert(cur.push(ty_name@).no_duplicates());
            assert forall|x: Seq<char>| cur.push(ty_name@).to_set().contains(x) implies self.universe().contains(x) by {
                assert(cur.push(ty_name@).contains(x));
                let j = choose|j: int| 0 <= j < cur.push(ty_name@).len() && cur.push(ty_name@)[j] == x;
                if j < cur.len() {
                    assert(cur[j] == x);
                }
            }
            assert(cur.push(ty_name@).to_set().subset_of(self.universe()));
            vstd::set_lib::lemma_len_subset(cur.push(ty_name@).to_set(), self.universe());
            cur.push(ty_name@).unique_seq_to_set();
        }
        if *target == *ty_name {
            let ghost r0 = result@;
            result.push(next);
            proof {
                let c0 = cur.push(ty_name@);
                assert(result@[r0.len() as int].deep_view() == c0);
                assert(c0.take(n + 1) =~= c0);
                assert forall|i: int| 0 <= i < c0.len() - 1 implies c0[i] != target@ by {
                    assert(c0[i] == cur[i]);
                }
                assert(simple_chain(self@.deps, c0, target@));
                assert forall|c: Seq<Seq<char>>|
                    simple_chain(self@.deps, c, target@) && c.len() > n
                        && #[trigger] c.take(n + 1) == cur.push(ty_name@)
                        implies found(result@, r0.len() as int, c) by {
                    assert(c[n] == c.take(n + 1)[n]);
                    assert(c.len() == n + 1);
                    assert(c =~= c.take(n + 1));
                    assert(result@[r0.len() as int].deep_view() == c);
                }
                assert(chains_view(result@) =~= chains_view(r0) + seq![c0]);
            }
            return;
        }
        let ghost f = (self.universe().len() - n - 1) as nat;
        proof {
            assert(self.universe().len() >= n + 1);
        }
        let ghost r0 = result@;
        let ghost nx = next.deep_view();
        proof {
            assert forall|i: int| 0 <= i < nx.len() implies nx[i] != target@ by {
                if i < n {
                    assert(nx[i] == cur[i]);
                }
            }
        }
        match lookup(&self.type_deps, ty_name) {
            Some(j) => {
                let deps = &self.type_deps[j].1;
                proof {
                    assert(succ(self@.deps, ty_name@) == deps.deep_view());
                    assert(deps.deep_view().take(0) =~= Seq::<Seq<char>>::empty());
                    assert(chains_view(result@) =~= chains_view(r0) + dfs_list(self@.deps, target@, nx, deps.deep_view().take(0), f));
                }
                let mut k: usize = 0;
                while k < deps.len()
                    invariant
                        k <= deps@.len(),
                        nx == next.deep_view(),
                        nx == cur.push(ty_name@),
                        n == cur.len(),
                        cur == current_chain.deep_view(),
                        nx.no_duplicates(),
                        forall|i: int| 0 <= i < nx.len() ==> nx[i] != target@,
                        forall|x: Seq<char>| nx.contains(x) ==> self.universe().contains(x),
                        self.universe().finite(),
                        path_ok(self@.deps, nx),
                        succ(self@.deps, ty_name@) == deps.deep_view(),
                        nx.len() <= self.universe().len(),
                        result@.len() >= r0.len(),
                        forall|i: int| 0 <= i < r0.len() ==> #[trigger] result@[i] == r0[i],
                        forall|i: int|
                            r0.len() <= i < result@.len() ==> simple_chain(self@.deps, #[trigger] result@[i].deep_view(), target@)
                                && result@[i].deep_view().len() > cur.len()
                                && result@[i].deep_view().take(n + 1) == nx,
                        forall|c: Seq<Seq<char>>|
                            simple_chain(self@.deps, c, target@) && c.len() > nx.len()
                                && #[trigger] c.take(n + 1) == nx && deps.deep_view().take(k as int).contains(c[n + 1])
                                ==> found(result@, r0.len() as int, c),
                        f == self.universe().len() - nx.len(),
                        chains_view(result@) == chains_view(r0) + dfs_list(self@.deps, target@, nx, deps.deep_view().take(k as int), f),
                    decreases deps.len() - k,
                {
                    let ghost r1 = result@;
                    let ghost d = deps@[k as int]@;
                    proof {
                        assert(deps.deep_view()[k as int] == d);
                        self.lemma_universe(ty_name@, d);
                        assert forall|i: int| 0 <= i < nx.push(d).len() - 1 implies #[trigger] succ(self@.deps, nx.push(d)[i]).contains(nx.push(d)[i + 1]) by {
                            if i < nx.len() - 1 {
                                assert(nx.push(d)[i] == nx[i]);
                                assert(nx.push(d)[i + 1] == nx[i + 1]);
                            } else {
                                assert(nx.push(d)[i] == ty_name@);
                            }
                        }
                        assert forall|x: Seq<char>| next.deep_view().contains(x) implies self.universe().contains(x) by {}
                        assert(!nx.contains(target@));
                    }
                    self.recurisve_find_type(target, &deps[k], &next, result);
                    proof {
                        let dk = deps.deep_view().take(k as int + 1);
                        assert(dk.drop_last() =~= deps.deep_view().take(k as int));
                        assert(dk.last() == d);
                        assert(chains_view(result@) =~= chains_view(r0) + dfs_list(self@.deps, target@, nx, dk, f));
                        assert forall|i: int| r0.len() <= i < result@.len() implies simple_chain(self@.deps, #[trigger] result@[i].deep_view(), target@)
                                && result@[i].deep_view().len() > cur.len()
                                && result@[i].deep_view().take(n + 1) == nx by {
                            if i < r1.len() {
                                assert(result@[i] == r1[i]);
                            } else {
                                let c = result@[i].deep_view();
                                assert(c.take(nx.len() as int + 1) == nx.push(d));
                                assert(c.take(n + 1) =~= c.take(nx.len() as int + 1).take(n + 1));
                                assert(nx.push(d).take(n + 1) =~= nx);
                            }
                        }
                        assert forall|c: Seq<Seq<char>>|
                            simple_chain(self@.deps, c, target@) && c.len() > nx.len()
                                && #[trigger] c.take(n + 1) == nx && deps.deep_view().take(k as int + 1).contains(c[n + 1])
                                implies found(result@, r0.len() as int, c) by {
                            if c[n + 1] == d {
                                assert(c.take(nx.len() as int + 1) =~= nx.push(d)) by {
                                    assert forall|x: int| 0 <= x < nx.len() implies c.take(nx.len() as int + 1)[x] == nx[x] by {
                                        assert(c.take(n + 1)[x] == c[x]);
                                    }
                                }
                                let i = choose|i: int| r1.len() <= i < result@.len() && result@[i].deep_view() == c;
                            } else {
                                let t1 = deps.deep_view().take(k as int + 1);
                                let x = choose|x: int| 0 <= x < t1.len() && t1[x] == c[n + 1];
                                assert(x != k);
                                assert(deps.deep_view().take(k as int)[x] == c[n + 1]);
                                let i = choose|i: int| r0.len() <= i < r1.len() && r1[i].deep_view() == c;
                                assert(result@[i] == r1[i]);
                            }
                        }
                    }
                    k = k + 1;
                }
                proof {
                    assert(deps.deep_view().take(k as int) =~= deps.deep_view());
                    assert(dfs_chains(self@.deps, target@, cur, ty_name@, f + 1) == dfs_list(self@.deps, target@, nx, deps.deep_view(), f));
                    assert forall|c: Seq<Seq<char>>|
                        simple_chain(self@.deps, c, target@) && c.len() > n
                            && #[trigger] c.take(n + 1) == cur.push(ty_name@)
                            implies found(result@, r0.len() as int, c) by {
                        assert(c[n] == c.take(n + 1)[n]);
                        assert(c.len() > n + 1);
                        assert(succ(self@.deps, c[n]).contains(c[n + 1]));
                    }
                }
            },
            None => {
                proof {
                    assert(succ(self@.deps, ty_name@) =~= Seq::<Seq<char>>::empty());
                    assert(dfs_chains(self@.deps, target@, cur, ty_name@, f + 1) == Seq::<Seq<Seq<char>>>::empty());
                    assert(chains_view(result@) + Seq::<Seq<Seq<char>>>::empty() =~= chains_view(result@));
                    assert forall|c: Seq<Seq<char>>|
                        simple_chain(self@.deps, c, target@) && c.len() > n
                            && #[trigger] c.take(n + 1) == cur.push(ty_name@)
                            implies found(result@, r0.len() as int, c) by {
                        assert(c[n] == c.take(n + 1)[n]);
                        assert(c.len() > n + 1);
                        assert(succ(self@.deps, c[n]).contains(c[n + 1]));
                    }
                }
            },
        }
    }

    /// Every simple dependency chain (no name twice, the target only at its end) from a root to
    /// `target`, each written `KeyValue -> root -> .. -> target`, and nothing else: root by
    /// root, depth first, each name's dependencies in stored order.
    pub fn try_find_type_chain(&self, target: &String) -> (r: Vec<String>)
        ensures
            r@.len() == root_chains(self@.deps, target@, self@.roots, self.name_count()).len(),
            forall|i: int| 0 <= i < r@.len() ==> #[trigger] r@[i]@ == join_arrow(
                seq![store_marker()] + root_chains(self@.deps, target@, self@.roots, self.name_count())[i],
            ),
            forall|i: int| 0 <= i < r@.len() ==> rendered_chain(self@.deps, self@.roots, target@, #[trigger] r@[i]@),
            forall|c: Seq<Seq<char>>|
                simple_chain(self@.deps, c, target@) && #[trigger] self@.roots.contains(c[0])
                    ==> exists|i: int| 0 <= i < r@.len() && r@[i]@ == join_arrow(seq![store_marker()] + c),
    {
        let mut result: Vec<Vec<String>> = Vec::new();
        let empty: Vec<String> = Vec::new();
        let mut i: usize = 0;
        proof {
            assert(self@.roots.take(0) =~= Seq::<Seq<char>>::empty());
            assert(chains_view(result@) =~= Seq::<Seq<Seq<char>>>::empty());
        }
        while i < self.store_types.len()
            invariant
                i <= self.store_types@.len(),
                empty.deep_view() == Seq::<Seq<char>>::empty(),
                forall|j: int|
                    0 <= j < result@.len() ==> simple_chain(self@.deps, #[trigger] result@[j].deep_view(), target@)
                        && self@.roots.contains(result@[j].deep_view()[0]),
                forall|c: Seq<Seq<char>>|
                    simple_chain(self@.deps, c, target@) && #[trigger] self@.roots.take(i as int).contains(c[0])
                        ==> found(result@, 0, c),
                chains_view(result@) == root_chains(self@.deps, target@, self@.roots.take(i as int), self.name_count()),
            decreases self.store_types.len() - i,
        {
            let ghost r0 = result@;
            let ghost root = self.store_types@[i as int]@;
            proof {
                assert(self.store_types.deep_view()[i as int] == root);
                let all = names_of(self.type_deps@) + self.store_types.deep_view();
                assert(all[names_of(self.type_deps@).len() + i] == root);
                vstd::seq_lib::seq_to_set_is_finite(all);
                assert(empty.deep_view().push(root) =~= seq![root]);
            }
            self.recurisve_find_type(target, &self.store_types[i], &empty, &mut result);
            proof {
                let rt = self@.roots.take(i as int + 1);
                assert(rt.drop_last() =~= self@.roots.take(i as int));
                assert(rt.last() == root);
                assert(chains_view(result@) =~= root_chains(self@.deps, target@, rt, self.name_count()));
                assert forall|j: int| 0 <= j < result@.len() implies simple_chain(self@.deps, #[trigger] result@[j].deep_view(), target@)
                        && self@.roots.contains(result@[j].deep_view()[0]) by {
                    if j < r0.len() {
                        assert(result@[j] == r0[j]);
                    } else {
                        let c = result@[j].deep_view();
                        assert(c.take(1) == empty.deep_view().push(root));
                        assert(c[0] == c.take(1)[0]);
                        assert(self.store_types.deep_view()[i as int] == root);
                    }
                }
                assert forall|c: Seq<Seq<char>>|
                    simple_chain(self@.deps, c, target@) && #[trigger] self@.roots.take(i as int + 1).contains(c[0])
                        implies found(result@, 0, c) by {
                    if c[0] == root {
                        assert(c.take(1) =~= empty.deep_view().push(root));
                        let x = choose|x: int| r0.len() <= x < result@.len() && result@[x].deep_view() == c;
                    } else {
                        let t1 = self@.roots.take(i as int + 1);
                        let x = choose|x: int| 0 <= x < t1.len() && t1[x] == c[0];
                        assert(self@.roots.take(i as int)[x] == c[0]);
                        assert(self@.roots.take(i as int).contains(c[0]));
                        assert(found(r0, 0, c));
                        let y = choose|y: int| 0 <= y < r0.len() && r0[y].deep_view() == c;
                        assert(result@[y] == r0[y]);
                    }
                }
            }
            i = i + 1;
        }
        proof {
            assert(self@.roots.take(i as int) =~= self@.roots);
        }
        let ghost all = chains_view(result@);
        let mut out: Vec<String> = Vec::new();
        let mut k: usize = 0;
        while k < result.len()
            invariant
                k <= result@.len(),
                out@.len() == k,
                forall|j: int|
                    0 <= j < result@.len() ==> simple_chain(self@.deps, #[trigger] result@[j].deep_view(), target@)
                        && self@.roots.contains(result@[j].deep_view()[0]),
                forall|j: int|
                    0 <= j < k ==> #[trigger] out@[j]@ == join_arrow(seq![store_marker()] + result@[j].deep_view()),
            decreases result.len() - k,
        {
            let mut full: Vec<String> = Vec::new();
            full.push(String::from_str("KeyValue"));
            push_names(&mut full, &result[k]);
            let s = join_chain(&full);
            proof {
                let c = result@[k as int].deep_view();
                assert(full.deep_view() =~= seq![store_marker()] + c);
            }
            out.push(s);
            k = k + 1;
        }
        proof {
            assert forall|x: int| 0 <= x < out@.len() implies #[trigger] out@[x]@ == join_arrow(
                seq![store_marker()] + root_chains(self@.deps, target@, self@.roots, self.name_count())[x],
            ) by {
                assert(all[x] == result@[x].deep_view());
            }
            assert forall|x: int| 0 <= x < out@.len() implies rendered_chain(self@.deps, self@.roots, target@, #[trigger] out@[x]@) by {
                let c = result@[x].deep_view();
                assert(chain_ok(self@.deps, c, target@) && self@.roots.contains(c[0]));
            }
            assert forall|c: Seq<Seq<char>>|
                simple_chain(self@.deps, c, target@) && #[trigger] self@.roots.contains(c[0])
                    implies exists|x: int| 0 <= x < out@.len() && out@[x]@ == join_arrow(seq![store_marker()] + c) by {
                let y = choose|y: int| 0 <= y < result@.len() && result@[y].deep_view() == c;
                assert(out@[y]@ == join_arrow(seq![store_marker()] + c));
            }
        }
        out
    }

    /// Records that `ty_name` depends on `dep_types`, sorted and each once, after what is recorded
    /// for it already.
    fn add_type_deps(&mut self, ty_name: &String, dep_types: &Vec<String>)
        ensures
            final(self)@ == (ScanView { deps: add_deps(old(self)@.deps, ty_name@, dep_types.deep_view()), ..old(self)@ }),
    {
        if dep_types.len() == 0 {
            proof {
                assert(final(self)@ =~= (ScanView { deps: add_deps(old(self)@.deps, ty_name@, dep_types.deep_view()), ..old(self)@ }));
            }
            return;
        }
        let ghost g = self@.deps;
        let mut batch: Vec<String> = Vec::new();
        let mut b: usize = 0;
        proof {
            assert(dep_types.deep_view().take(0) =~= Seq::<Seq<char>>::empty());
        }
        while b < dep_types.len()
            invariant
                b <= dep_types@.len(),
                batch.deep_view() == sort_dedup(dep_types.deep_view().take(b as int)),
            decreases dep_types.len() - b,
        {
            proof {
                assert(dep_types.deep_view().take(b as int + 1).drop_last() =~= dep_types.deep_view().take(b as int));
                assert(dep_types.deep_view()[b as int] == dep_types@[b as int]@);
            }
            insert_name_sorted(&mut batch, &dep_types[b]);
            b = b + 1;
        }
        proof {
            assert(dep_types.deep_view().take(b as int) =~= dep_types.deep_view());
        }
        let mut cur: Vec<String> = match lookup(&self.type_deps, ty_name) {
            Some(i) => clone_names(&self.type_deps[i].1),
            None => Vec::new(),
        };
        proof {
            assert(cur.deep_view() =~= succ(g, ty_name@));
            assert(batch.deep_view().take(0) =~= Seq::<Seq<char>>::empty());
        }
        let mut j: usize = 0;
        while j < batch.len()
            invariant
                j <= batch@.len(),
                cur.deep_view() == union_append(succ(g, ty_name@), batch.deep_view().take(j as int)),
            decreases batch.len() - j,
        {
            proof {
                assert(batch.deep_view().take(j as int + 1).drop_last() =~= batch.deep_view().take(j as int));
                assert(batch.deep_view()[j as int] == batch@[j as int]@);
            }
            if !contains_name(&cur, &batch[j]) {
                let ghost before = cur.deep_view();
                cur.push(batch[j].clone());
                proof {
                    assert(cur.deep_view() =~= before.push(batch@[j as int]@));
                }
            }
            j = j + 1;
        }
        proof {
            assert(batch.deep_view().take(j as int) =~= batch.deep_view());
        }
        self.type_deps.push((ty_name.clone(), cur));
        proof {
            assert(self.type_deps@.drop_last() =~= old(self).type_deps@);
            assert(final(self)@ =~= (ScanView { deps: add_deps(old(self)@.deps, ty_name@, dep_types.deep_view()), ..old(self)@ }));
        }
    }
}

} // verus!
