use vstd::prelude::*;
use crate::model::{Attribute, Field, Variant};
use crate::text::{has_substring, string_contains};

verus! {

/// The hex digest of a text, as SHA-256 over its UTF-8 bytes gives it.
pub uninterp spec fn sha256_hex(text: Seq<char>) -> Seq<char>;

/// A lowercase hexadecimal digit.
pub open spec fn is_lower_hex(c: char) -> bool {
    ('0' <= c && c <= '9') || ('a' <= c && c <= 'f')
}

/// Relies on sha2's `Sha256::digest` over the UTF-8 bytes of `text`, whose 32-byte output
/// generic-array's `LowerHex` writes as 64 lowercase hex digits.
#[verifier::external_body]
fn digest_hex(text: &String) -> (r: String)
    ensures
        r@ == sha256_hex(text@),
        r@.len() == 64,
        forall|i: int| 0 <= i < r@.len() ==> is_lower_hex(#[trigger] r@[i]),
{
    format!("{:x}", <sha2::Sha256 as sha2::Digest>::digest(text.as_bytes()))
}

/// An attribute that excludes its field from the shape: a `serde` attribute mentioning `skip`.
pub open spec fn attr_is_skip(a: Attribute) -> bool {
    a.path@.len() > 0 && a.path@.last()@ == "serde"@ && has_substring(a.tokens@, "skip"@)
}

pub open spec fn field_is_skip(f: Field) -> bool {
    exists|i: int| 0 <= i < f.attrs@.len() && attr_is_skip(#[trigger] f.attrs@[i])
}

/// Whether the field carries a skip annotation.
pub fn should_skip_field(f: &Field) -> (r: bool)
    ensures
        r == field_is_skip(*f),
{
    let serde = String::from_str("serde");
    let skip = String::from_str("skip");
    let mut i: usize = 0;
    while i < f.attrs.len()
        invariant
            i <= f.attrs@.len(),
            serde@ == "serde"@,
            skip@ == "skip"@,
            forall|k: int| 0 <= k < i ==> !attr_is_skip(#[trigger] f.attrs@[k]),
        decreases f.attrs.len() - i,
    {
        let a = &f.attrs[i];
        let n = a.path.len();
        if n > 0 && a.path[n - 1] == serde && string_contains(&a.tokens, &skip) {
            return true;
        }
        i = i + 1;
    }
    false
}

/// The line a kept field contributes: its name and its type text.
pub open spec fn pair_line(p: (Seq<char>, Seq<char>)) -> Seq<char> {
    "field:"@ + p.0 + ":"@ + p.1 + "\n"@
}

pub open spec fn field_pair(f: Field) -> (Seq<char>, Seq<char>) {
    (f.name@, f.ty.text@)
}

/// The (name, type text) pairs of the fields without a skip annotation, in declared order.
pub open spec fn kept_fields(fs: Seq<Field>) -> Seq<(Seq<char>, Seq<char>)>
    decreases fs.len(),
{
    if fs.len() == 0 {
        Seq::empty()
    } else if field_is_skip(fs.last()) {
        kept_fields(fs.drop_last())
    } else {
        kept_fields(fs.drop_last()).push(field_pair(fs.last()))
    }
}

pub open spec fn lines_text(ps: Seq<(Seq<char>, Seq<char>)>) -> Seq<char>
    decreases ps.len(),
{
    if ps.len() == 0 {
        Seq::empty()
    } else {
        lines_text(ps.drop_last()) + pair_line(ps.last())
    }
}

/// The shape text of a field list: one line per kept field.
pub open spec fn fields_text(fs: Seq<Field>) -> Seq<char> {
    lines_text(kept_fields(fs))
}

/// The canonical shape text of a record.
pub open spec fn record_text(name: Seq<char>, fs: Seq<Field>) -> Seq<char> {
    "struct_name:"@ + name + "\n"@ + fields_text(fs)
}

pub open spec fn variants_text(vs: Seq<Variant>) -> Seq<char>
    decreases vs.len(),
{
    if vs.len() == 0 {
        Seq::empty()
    } else {
        variants_text(vs.drop_last()) + "variant:"@ + vs.last().name@ + "\n"@ + fields_text(
            vs.last().fields@,
        )
    }
}

/// The canonical shape text of a sum type.
pub open spec fn sum_text(name: Seq<char>, vs: Seq<Variant>) -> Seq<char> {
    "enum_name:"@ + name + "\n"@ + variants_text(vs)
}

pub open spec fn record_digest(name: Seq<char>, fs: Seq<Field>) -> Seq<char> {
    sha256_hex(record_text(name, fs))
}

pub open spec fn sum_digest(name: Seq<char>, vs: Seq<Variant>) -> Seq<char> {
    sha256_hex(sum_text(name, vs))
}

/// Appends the lines of the kept fields of `fs` to `out`.
fn append_fields_text(out: &mut String, fs: &Vec<Field>)
    ensures
        final(out)@ == old(out)@ + fields_text(fs@),
{
    let ghost start = out@;
    let mut i: usize = 0;
    while i < fs.len()
        invariant
            i <= fs@.len(),
            out@ == start + fields_text(fs@.take(i as int)),
        decreases fs.len() - i,
    {
        proof {
            assert(fs@.take(i as int + 1).drop_last() =~= fs@.take(i as int));
        }
        if !should_skip_field(&fs[i]) {
            out.append("field:");
            out.append(fs[i].name.as_str());
            out.append(":");
            out.append(fs[i].ty.text.as_str());
            out.append("\n");
            proof {
                let ks = kept_fields(fs@.take(i as int));
                let p = field_pair(fs@[i as int]);
                assert(kept_fields(fs@.take(i as int + 1)) == ks.push(p));
                assert(ks.push(p).drop_last() =~= ks);
                assert(lines_text(ks.push(p)) == lines_text(ks) + pair_line(p));
                assert(out@ =~= start + fields_text(fs@.take(i as int + 1)));
            }
        }
        i = i + 1;
    }
    proof {
        assert(fs@.take(i as int) =~= fs@);
    }
}

/// The canonical shape text of a record declaration.
pub fn record_shape_text(name: &String, fs: &Vec<Field>) -> (r: String)
    ensures
        r@ == record_text(name@, fs@),
{
    let mut out = String::from_str("struct_name:");
    out.append(name.as_str());
    out.append("\n");
    append_fields_text(&mut out, fs);
    out
}

/// The canonical shape text of a sum declaration.
pub fn sum_shape_text(name: &String, vs: &Vec<Variant>) -> (r: String)
    ensures
        r@ == sum_text(name@, vs@),
{
    let mut out = String::from_str("enum_name:");
    out.append(name.as_str());
    out.append("\n");
    let ghost start = out@;
    let mut i: usize = 0;
    while i < vs.len()
        invariant
            i <= vs@.len(),
            start == "enum_name:"@ + name@ + "\n"@,
            out@ == start + variants_text(vs@.take(i as int)),
        decreases vs.len() - i,
    {
        proof {
            assert(vs@.take(i as int + 1).drop_last() =~= vs@.take(i as int));
        }
        out.append("variant:");
        out.append(vs[i].name.as_str());
        out.append("\n");
        append_fields_text(&mut out, &vs[i].fields);
        proof {
            assert(out@ =~= start + variants_text(vs@.take(i as int + 1)));
        }
        i = i + 1;
    }
    proof {
        assert(vs@.take(i as int) =~= vs@);
    }
    out
}

/// The fingerprint of a record declaration.
pub fn record_fingerprint(name: &String, fs: &Vec<Field>) -> (r: String)
    ensures
        r@ == record_digest(name@, fs@),
        r@.len() == 64,
        forall|i: int| 0 <= i < r@.len() ==> is_lower_hex(#[trigger] r@[i]),
{
    let t = record_shape_text(name, fs);
    digest_hex(&t)
}

/// The fingerprint of a sum declaration.
pub fn sum_fingerprint(name: &String, vs: &Vec<Variant>) -> (r: String)
    ensures
        r@ == sum_digest(name@, vs@),
        r@.len() == 64,
        forall|i: int| 0 <= i < r@.len() ==> is_lower_hex(#[trigger] r@[i]),
{
    let t = sum_shape_text(name, vs);
    digest_hex(&t)
}

/// A name or type text fit for a shape line: no line break, and for names no `:`.
pub open spec fn valid_pair(p: (Seq<char>, Seq<char>)) -> bool {
    &&& forall|k: int| 0 <= k < p.0.len() ==> p.0[k] != ':' && p.0[k] != '\n'
    &&& forall|k: int| 0 <= k < p.1.len() ==> p.1[k] != '\n'
}

/// Field names are identifiers and type texts are single-line.
pub open spec fn valid_fields(fs: Seq<Field>) -> bool {
    forall|i: int| 0 <= i < fs.len() ==> valid_pair(field_pair(#[trigger] fs[i]))
}

proof fn lemma_kept_valid(fs: Seq<Field>)
    requires
        valid_fields(fs),
    ensures
        forall|i: int| 0 <= i < kept_fields(fs).len() ==> valid_pair(#[trigger] kept_fields(fs)[i]),
    decreases fs.len(),
{
    if fs.len() > 0 {
        assert forall|i: int| 0 <= i < fs.drop_last().len() implies valid_pair(
            field_pair(#[trigger] fs.drop_last()[i]),
        ) by {
            assert(fs.drop_last()[i] == fs[i]);
        }
        lemma_kept_valid(fs.drop_last());
        let k = kept_fields(fs.drop_last());
        assert(valid_pair(field_pair(fs[fs.len() - 1])));
        assert forall|i: int| 0 <= i < kept_fields(fs).len() implies valid_pair(
            #[trigger] kept_fields(fs)[i],
        ) by {
            if !field_is_skip(fs.last()) && i < k.len() {
                assert(kept_fields(fs)[i] == k[i]);
            }
        }
    }
}

proof fn lemma_pair_line_shape(p: (Seq<char>, Seq<char>))
    requires
        valid_pair(p),
    ensures
        pair_line(p).len() == 8 + p.0.len() + p.1.len(),
        pair_line(p)[pair_line(p).len() - 1] == '\n',
        forall|k: int| 0 <= k < pair_line(p).len() - 1 ==> pair_line(p)[k] != '\n',
{
    reveal_strlit("field:");
    reveal_strlit(":");
    reveal_strlit("\n");
    let l = pair_line(p);
    assert forall|k: int| 0 <= k < l.len() - 1 implies l[k] != '\n' by {
        if k < 6 {
        } else if k < 6 + p.0.len() {
            assert(l[k] == p.0[k - 6]);
        } else if k == 6 + p.0.len() {
        } else {
            assert(l[k] == p.1[k - 7 - p.0.len()]);
        }
    }
}

proof fn lemma_pair_line_injective(pa: (Seq<char>, Seq<char>), pb: (Seq<char>, Seq<char>))
    requires
        valid_pair(pa),
        valid_pair(pb),
        pair_line(pa) == pair_line(pb),
    ensures
        pa == pb,
{
    reveal_strlit("field:");
    reveal_strlit(":");
    reveal_strlit("\n");
    let l = pair_line(pa);
    let n1 = pa.0.len() as int;
    let n2 = pb.0.len() as int;
    if n1 < n2 {
        assert(l[6 + n1] == ':');
        assert(pair_line(pb)[6 + n1] == pb.0[n1]);
    } else if n2 < n1 {
        assert(pair_line(pb)[6 + n2] == ':');
        assert(l[6 + n2] == pa.0[n2]);
    } else {
        assert(pa.0 =~= l.subrange(6, 6 + n1));
        assert(pb.0 =~= pair_line(pb).subrange(6, 6 + n1));
        assert(pa.1 =~= l.subrange(7 + n1, l.len() - 1));
        assert(pb.1 =~= pair_line(pb).subrange(7 + n1, l.len() - 1));
    }
}

proof fn lemma_lines_shape(ps: Seq<(Seq<char>, Seq<char>)>)
    requires
        forall|i: int| 0 <= i < ps.len() ==> valid_pair(#[trigger] ps[i]),
    ensures
        ps.len() > 0 ==> lines_text(ps).len() > 0 && lines_text(ps)[lines_text(ps).len() - 1] == '\n',
{
    if ps.len() > 0 {
        lemma_pair_line_shape(ps.last());
    }
}

proof fn lemma_lines_injective(a: Seq<(Seq<char>, Seq<char>)>, b: Seq<(Seq<char>, Seq<char>)>)
    requires
        forall|i: int| 0 <= i < a.len() ==> valid_pair(#[trigger] a[i]),
        forall|i: int| 0 <= i < b.len() ==> valid_pair(#[trigger] b[i]),
        lines_text(a) == lines_text(b),
    ensures
        a == b,
    decreases a.len() + b.len(),
{
    lemma_lines_shape(a);
    lemma_lines_shape(b);
    if a.len() == 0 || b.len() == 0 {
        assert(a =~= b);
    } else {
        let t = lines_text(a);
        let ra = lines_text(a.drop_last());
        let rb = lines_text(b.drop_last());
        let la = pair_line(a.last());
        let lb = pair_line(b.last());
        lemma_pair_line_shape(a.last());
        lemma_pair_line_shape(b.last());
        lemma_lines_shape(a.drop_last());
        lemma_lines_shape(b.drop_last());
        if la.len() < lb.len() {
            let q = t.len() - la.len() - 1;
            if a.len() == 1 {
                assert(ra.len() == 0);
            } else {
                assert(t[q] == ra[q]);
                assert(t[q] == lb[q - rb.len()]);
            }
        } else if lb.len() < la.len() {
            let q = t.len() - lb.len() - 1;
            if b.len() == 1 {
                assert(rb.len() == 0);
            } else {
                assert(t[q] == rb[q]);
                assert(t[q] == la[q - ra.len()]);
            }
        } else {
            assert(la =~= t.subrange(ra.len() as int, t.len() as int));
            assert(lb =~= t.subrange(rb.len() as int, t.len() as int));
            assert(ra =~= t.subrange(0, ra.len() as int));
            assert(rb =~= t.subrange(0, rb.len() as int));
            lemma_pair_line_injective(a.last(), b.last());
            lemma_lines_injective(a.drop_last(), b.drop_last());
            assert(a =~= a.drop_last().push(a.last()));
            assert(b =~= b.drop_last().push(b.last()));
        }
    }
}

/// A record's digest is a function of its name and of the names and types of its kept fields,
/// in order: hashing the same declaration again gives the same digest, whatever carries a skip
/// annotation.
pub proof fn lemma_record_digest_depends_on_kept_fields(name: Seq<char>, fs1: Seq<Field>, fs2: Seq<Field>)
    requires
        kept_fields(fs1) == kept_fields(fs2),
    ensures
        record_digest(name, fs1) == record_digest(name, fs2),
{
}

proof fn lemma_variants_text_eq(vs1: Seq<Variant>, vs2: Seq<Variant>)
    requires
        vs1.len() == vs2.len(),
        forall|j: int| 0 <= j < vs1.len() ==> (#[trigger] vs1[j]).name@ == vs2[j].name@
            && kept_fields(vs1[j].fields@) == kept_fields(vs2[j].fields@),
    ensures
        variants_text(vs1) == variants_text(vs2),
    decreases vs1.len(),
{
    if vs1.len() > 0 {
        assert forall|j: int| 0 <= j < vs1.drop_last().len() implies (#[trigger] vs1.drop_last()[j]).name@
            == vs2.drop_last()[j].name@ && kept_fields(vs1.drop_last()[j].fields@) == kept_fields(
            vs2.drop_last()[j].fields@,
        ) by {
            assert(vs1.drop_last()[j] == vs1[j]);
            assert(vs2.drop_last()[j] == vs2[j]);
        }
        lemma_variants_text_eq(vs1.drop_last(), vs2.drop_last());
        let j = vs1.len() - 1;
        assert(vs1[j].name@ == vs2[j].name@);
    }
}

/// A sum type's digest is a function of its name and of its variants' names and kept fields,
/// in order: adding a skip-annotated payload field to a variant leaves it unchanged.
pub proof fn lemma_sum_digest_depends_on_kept_fields(name: Seq<char>, vs1: Seq<Variant>, vs2: Seq<Variant>)
    requires
        vs1.len() == vs2.len(),
        forall|j: int| 0 <= j < vs1.len() ==> (#[trigger] vs1[j]).name@ == vs2[j].name@
            && kept_fields(vs1[j].fields@) == kept_fields(vs2[j].fields@),
    ensures
        sum_digest(name, vs1) == sum_digest(name, vs2),
{
    lemma_variants_text_eq(vs1, vs2);
}

proof fn lemma_kept_concat(a: Seq<Field>, b: Seq<Field>)
    ensures
        kept_fields(a + b) == kept_fields(a) + kept_fields(b),
    decreases b.len(),
{
    if b.len() == 0 {
        assert(a + b =~= a);
        assert(kept_fields(a) + kept_fields(b) =~= kept_fields(a));
    } else {
        assert((a + b).drop_last() =~= a + b.drop_last());
        lemma_kept_concat(a, b.drop_last());
        if !field_is_skip(b.last()) {
            assert(kept_fields(a) + kept_fields(b) =~= (kept_fields(a) + kept_fields(b.drop_last())).push(
                field_pair(b.last()),
            ));
        }
    }
}

/// Adding a field with a skip annotation anywhere leaves the kept fields, and so the
/// record's digest, unchanged.
pub proof fn lemma_skip_field_keeps_digest(name: Seq<char>, fs: Seq<Field>, i: int, f: Field)
    requires
        0 <= i <= fs.len(),
        field_is_skip(f),
    ensures
        kept_fields(fs.insert(i, f)) == kept_fields(fs),
        record_digest(name, fs.insert(i, f)) == record_digest(name, fs),
{
    let pre = fs.take(i);
    let post = fs.skip(i);
    assert(fs.insert(i, f) =~= (pre + seq![f]) + post);
    assert(fs =~= pre + post);
    lemma_kept_concat(pre + seq![f], post);
    lemma_kept_concat(pre, seq![f]);
    lemma_kept_concat(pre, post);
    assert(seq![f].drop_last() =~= Seq::<Field>::empty());
    assert(seq![f].last() == f);
    assert(kept_fields(Seq::<Field>::empty()) =~= Seq::empty());
    assert(kept_fields(seq![f]) =~= Seq::empty());
    assert(kept_fields(pre) + Seq::<(Seq<char>, Seq<char>)>::empty() =~= kept_fields(pre));
}

/// Two records of one name whose kept fields differ in any way (a field added, removed,
/// renamed or retyped, or the fields reordered) have different canonical texts, so their
/// digests differ unless SHA-256 collides.
pub proof fn lemma_record_text_tracks_fields(name: Seq<char>, fs1: Seq<Field>, fs2: Seq<Field>)
    requires
        valid_fields(fs1),
        valid_fields(fs2),
        kept_fields(fs1) != kept_fields(fs2),
    ensures
        record_text(name, fs1) != record_text(name, fs2),
{
    lemma_kept_valid(fs1);
    lemma_kept_valid(fs2);
    if record_text(name, fs1) == record_text(name, fs2) {
        let h = "struct_name:"@ + name + "\n"@;
        assert(fields_text(fs1) =~= record_text(name, fs1).skip(h.len() as int));
        assert(fields_text(fs2) =~= record_text(name, fs2).skip(h.len() as int));
        lemma_lines_injective(kept_fields(fs1), kept_fields(fs2));
    }
}

proof fn lemma_variants_concat(a: Seq<Variant>, b: Seq<Variant>)
    ensures
        variants_text(a + b) == variants_text(a) + variants_text(b),
    decreases b.len(),
{
    if b.len() == 0 {
        assert(a + b =~= a);
        assert(variants_text(a) + variants_text(b) =~= variants_text(a));
    } else {
        assert((a + b).drop_last() =~= a + b.drop_last());
        lemma_variants_concat(a, b.drop_last());
        let v = b.last();
        assert((a + b).last() == v);
        assert(variants_text(a) + variants_text(b) =~= variants_text(a) + variants_text(b.drop_last()) + "variant:"@
            + v.name@ + "\n"@ + fields_text(v.fields@));
    }
}

proof fn lemma_middle_differs(a: Seq<char>, x: Seq<char>, y: Seq<char>, b: Seq<char>)
    requires
        x != y,
    ensures
        a + x + b != a + y + b,
{
    if x.len() == y.len() {
        assert(!(x =~= y));
        let k = choose|k: int| 0 <= k < x.len() && x[k] != y[k];
        assert((a + x + b)[a.len() + k] == x[k]);
        assert((a + y + b)[a.len() + k] == y[k]);
    } else {
        assert((a + x + b).len() != (a + y + b).len());
    }
}

/// Changing the kept fields of one variant of a sum type (adding, removing, renaming or
/// retyping a field, or reordering them) changes the sum's canonical text, so its digest
/// differs unless SHA-256 collides.
pub proof fn lemma_sum_text_tracks_variant_fields(name: Seq<char>, vs: Seq<Variant>, j: int, v: Variant)
    requires
        0 <= j < vs.len(),
        v.name@ == vs[j].name@,
        valid_fields(v.fields@),
        valid_fields(vs[j].fields@),
        kept_fields(v.fields@) != kept_fields(vs[j].fields@),
    ensures
        sum_text(name, vs.update(j, v)) != sum_text(name, vs),
{
    let ws = vs.update(j, v);
    let pre = vs.take(j);
    let post = vs.skip(j + 1);
    assert(vs =~= pre + seq![vs[j]] + post);
    assert(ws =~= pre + seq![v] + post);
    lemma_variants_concat(pre + seq![vs[j]], post);
    lemma_variants_concat(pre, seq![vs[j]]);
    lemma_variants_concat(pre + seq![v], post);
    lemma_variants_concat(pre, seq![v]);
    assert(seq![v].drop_last() =~= Seq::<Variant>::empty());
    assert(seq![vs[j]].drop_last() =~= Seq::<Variant>::empty());
    let hv = "variant:"@ + v.name@ + "\n"@;
    assert(seq![v].last() == v);
    assert(seq![vs[j]].last() == vs[j]);
    assert(variants_text(Seq::<Variant>::empty()) =~= Seq::<char>::empty());
    assert(variants_text(seq![v]) =~= hv + fields_text(v.fields@));
    assert(variants_text(seq![vs[j]]) =~= hv + fields_text(vs[j].fields@));
    lemma_kept_valid(v.fields@);
    lemma_kept_valid(vs[j].fields@);
    if fields_text(v.fields@) == fields_text(vs[j].fields@) {
        lemma_lines_injective(kept_fields(v.fields@), kept_fields(vs[j].fields@));
    }
    assert(hv + fields_text(v.fields@) != hv + fields_text(vs[j].fields@)) by {
        if hv + fields_text(v.fields@) == hv + fields_text(vs[j].fields@) {
            assert(fields_text(v.fields@) =~= (hv + fields_text(v.fields@)).skip(hv.len() as int));
            assert(fields_text(vs[j].fields@) =~= (hv + fields_text(vs[j].fields@)).skip(hv.len() as int));
        }
    }
    let h = "enum_name:"@ + name + "\n"@;
    lemma_middle_differs(h + variants_text(pre), variants_text(seq![v]), variants_text(seq![vs[j]]), variants_text(post));
    assert(sum_text(name, ws) =~= h + variants_text(pre) + variants_text(seq![v]) + variants_text(post));
    assert(sum_text(name, vs) =~= h + variants_text(pre) + variants_text(seq![vs[j]]) + variants_text(post));
}

/// A line of shape text: it ends in its only line break.
pub open spec fn is_line(l: Seq<char>) -> bool {
    l.len() > 0 && l[l.len() - 1] == '\n' && forall|k: int| 0 <= k < l.len() - 1 ==> l[k] != '\n'
}

pub open spec fn concat_lines(ls: Seq<Seq<char>>) -> Seq<char>
    decreases ls.len(),
{
    if ls.len() == 0 {
        Seq::empty()
    } else {
        concat_lines(ls.drop_last()) + ls.last()
    }
}

proof fn lemma_concat_lines_injective(a: Seq<Seq<char>>, b: Seq<Seq<char>>)
    requires
        forall|i: int| 0 <= i < a.len() ==> is_line(#[trigger] a[i]),
        forall|i: int| 0 <= i < b.len() ==> is_line(#[trigger] b[i]),
        concat_lines(a) == concat_lines(b),
    ensures
        a == b,
    decreases a.len() + b.len(),
{
    if a.len() == 0 || b.len() == 0 {
        if a.len() > 0 {
            assert(is_line(a.last()));
            assert(concat_lines(a).len() >= a.last().len());
        }
        if b.len() > 0 {
            assert(is_line(b.last()));
            assert(concat_lines(b).len() >= b.last().len());
        }
        assert(a =~= b);
    } else {
        let t = concat_lines(a);
        let ra = concat_lines(a.drop_last());
        let rb = concat_lines(b.drop_last());
        let la = a.last();
        let lb = b.last();
        assert(is_line(la) && is_line(lb));
        assert forall|i: int| 0 <= i < a.drop_last().len() implies is_line(#[trigger] a.drop_last()[i]) by {
            assert(a.drop_last()[i] == a[i]);
        }
        assert forall|i: int| 0 <= i < b.drop_last().len() implies is_line(#[trigger] b.drop_last()[i]) by {
            assert(b.drop_last()[i] == b[i]);
        }
        if a.len() > 1 {
            assert(is_line(a.drop_last().last()));
        }
        if b.len() > 1 {
            assert(is_line(b.drop_last().last()));
        }
        if la.len() < lb.len() {
            let q = t.len() - la.len() - 1;
            if a.len() == 1 {
                assert(ra.len() == 0);
            } else {
                assert(t[q] == ra[q]);
                assert(t[q] == lb[q - rb.len()]);
            }
        } else if lb.len() < la.len() {
            let q = t.len() - lb.len() - 1;
            if b.len() == 1 {
                assert(rb.len() == 0);
            } else {
                assert(t[q] == rb[q]);
                assert(t[q] == la[q - ra.len()]);
            }
        } else {
            assert(la =~= t.subrange(ra.len() as int, t.len() as int));
            assert(lb =~= t.subrange(rb.len() as int, t.len() as int));
            assert(ra =~= t.subrange(0, ra.len() as int));
            assert(rb =~= t.subrange(0, rb.len() as int));
            lemma_concat_lines_injective(a.drop_last(), b.drop_last());
            assert(a =~= a.drop_last().push(la));
            assert(b =~= b.drop_last().push(lb));
        }
    }
}

pub open spec fn variant_line(n: Seq<char>) -> Seq<char> {
    "variant:"@ + n + "\n"@
}

pub open spec fn pair_lines(ps: Seq<(Seq<char>, Seq<char>)>) -> Seq<Seq<char>> {
    ps.map_values(|p: (Seq<char>, Seq<char>)| pair_line(p))
}

/// The lines of the variants' shape text, in order.
pub open spec fn variant_lines(vs: Seq<Variant>) -> Seq<Seq<char>>
    decreases vs.len(),
{
    if vs.len() == 0 {
        Seq::empty()
    } else {
        variant_lines(vs.drop_last()) + seq![variant_line(vs.last().name@)] + pair_lines(kept_fields(vs.last().fields@))
    }
}

/// The shape of a variant: its name and the names and types of its kept fields.
pub open spec fn variant_shape(v: Variant) -> (Seq<char>, Seq<(Seq<char>, Seq<char>)>) {
    (v.name@, kept_fields(v.fields@))
}

/// Variant names are single-line and their fields valid.
pub open spec fn valid_variants(vs: Seq<Variant>) -> bool {
    forall|i: int| 0 <= i < vs.len() ==> {
        &&& forall|k: int| 0 <= k < (#[trigger] vs[i]).name@.len() ==> vs[i].name@[k] != '\n'
        &&& valid_fields(vs[i].fields@)
    }
}

proof fn lemma_concat_lines_append(a: Seq<Seq<char>>, b: Seq<Seq<char>>)
    ensures
        concat_lines(a + b) == concat_lines(a) + concat_lines(b),
    decreases b.len(),
{
    if b.len() == 0 {
        assert(a + b =~= a);
        assert(concat_lines(a) + concat_lines(b) =~= concat_lines(a));
    } else {
        assert((a + b).drop_last() =~= a + b.drop_last());
        lemma_concat_lines_append(a, b.drop_last());
        assert(concat_lines(a) + concat_lines(b) =~= concat_lines(a) + concat_lines(b.drop_last()) + b.last());
    }
}

proof fn lemma_pair_lines_concat(ps: Seq<(Seq<char>, Seq<char>)>)
    ensures
        concat_lines(pair_lines(ps)) == lines_text(ps),
    decreases ps.len(),
{
    if ps.len() > 0 {
        lemma_pair_lines_concat(ps.drop_last());
        assert(pair_lines(ps).drop_last() =~= pair_lines(ps.drop_last()));
    }
}

proof fn lemma_variant_lines_text(vs: Seq<Variant>)
    ensures
        concat_lines(variant_lines(vs)) == variants_text(vs),
        valid_variants(vs) ==> forall|i: int| 0 <= i < variant_lines(vs).len() ==> is_line(#[trigger] variant_lines(vs)[i]),
    decreases vs.len(),
{
    if vs.len() > 0 {
        let v = vs.last();
        let pre = variant_lines(vs.drop_last());
        let pl = pair_lines(kept_fields(v.fields@));
        lemma_variant_lines_text(vs.drop_last());
        lemma_concat_lines_append(pre + seq![variant_line(v.name@)], pl);
        lemma_concat_lines_append(pre, seq![variant_line(v.name@)]);
        assert(seq![variant_line(v.name@)].drop_last() =~= Seq::<Seq<char>>::empty());
        assert(seq![variant_line(v.name@)].last() == variant_line(v.name@));
        assert(concat_lines(Seq::<Seq<char>>::empty()) =~= Seq::<char>::empty());
        assert(concat_lines(seq![variant_line(v.name@)]) =~= variant_line(v.name@));
        lemma_pair_lines_concat(kept_fields(v.fields@));
        assert(variants_text(vs) =~= variants_text(vs.drop_last()) + variant_line(v.name@) + fields_text(v.fields@));
        if valid_variants(vs) {
            assert forall|i: int| 0 <= i < vs.drop_last().len() implies {
                &&& forall|k: int| 0 <= k < (#[trigger] vs.drop_last()[i]).name@.len() ==> vs.drop_last()[i].name@[k] != '\n'
                &&& valid_fields(vs.drop_last()[i].fields@)
            } by {
                assert(vs.drop_last()[i] == vs[i]);
            }
            assert(vs[vs.len() - 1] == v);
            lemma_kept_valid(v.fields@);
            reveal_strlit("variant:");
            reveal_strlit("\n");
            let all = variant_lines(vs);
            assert forall|i: int| 0 <= i < all.len() implies is_line(#[trigger] all[i]) by {
                if i < pre.len() {
                    assert(all[i] == pre[i]);
                } else if i == pre.len() {
                    let l = variant_line(v.name@);
                    assert(all[i] == l);
                    assert forall|k: int| 0 <= k < l.len() - 1 implies l[k] != '\n' by {
                        if k >= 8 {
                            assert(l[k] == v.name@[k - 8]);
                        }
                    }
                } else {
                    let p = kept_fields(v.fields@)[i - pre.len() - 1];
                    assert(all[i] == pl[i - pre.len() - 1]);
                    lemma_pair_line_shape(p);
                }
            }
        }
    }
}

proof fn lemma_variant_lines_injective(a: Seq<Variant>, b: Seq<Variant>)
    requires
        valid_variants(a),
        valid_variants(b),
        variant_lines(a) == variant_lines(b),
    ensures
        a.map_values(|v: Variant| variant_shape(v)) == b.map_values(|v: Variant| variant_shape(v)),
    decreases a.len() + b.len(),
{
    reveal_strlit("variant:");
    reveal_strlit("field:");
    reveal_strlit("\n");
    if a.len() == 0 || b.len() == 0 {
        assert(a.len() == 0 && b.len() == 0);
        assert(a.map_values(|v: Variant| variant_shape(v)) =~= b.map_values(|v: Variant| variant_shape(v)));
    } else {
        let va = a.last();
        let vb = b.last();
        let pa = pair_lines(kept_fields(va.fields@));
        let pb = pair_lines(kept_fields(vb.fields@));
        let l = variant_lines(a);
        let ra = variant_lines(a.drop_last());
        let rb = variant_lines(b.drop_last());
        assert(l == ra + seq![variant_line(va.name@)] + pa);
        assert(l == rb + seq![variant_line(vb.name@)] + pb);
        if pa.len() < pb.len() {
            let q = l.len() - pa.len() - 1;
            assert(l[q] == variant_line(va.name@));
            assert(l[q] == pb[q - rb.len() - 1]);
            assert(variant_line(va.name@)[0] == 'v');
            assert(pair_line(kept_fields(vb.fields@)[q - rb.len() - 1])[0] == 'f');
        } else if pb.len() < pa.len() {
            let q = l.len() - pb.len() - 1;
            assert(l[q] == variant_line(vb.name@));
            assert(l[q] == pa[q - ra.len() - 1]);
            assert(variant_line(vb.name@)[0] == 'v');
            assert(pair_line(kept_fields(va.fields@)[q - ra.len() - 1])[0] == 'f');
        } else {
            assert(ra =~= l.take(ra.len() as int));
            assert(rb =~= l.take(rb.len() as int));
            assert(pa =~= l.skip(ra.len() as int + 1));
            assert(pb =~= l.skip(rb.len() as int + 1));
            let na = va.name@;
            let nb = vb.name@;
            assert(variant_line(na) == l[ra.len() as int]);
            assert(variant_line(nb) == l[rb.len() as int]);
            assert(na =~= variant_line(na).subrange(8, variant_line(na).len() - 1));
            assert(nb =~= variant_line(nb).subrange(8, variant_line(nb).len() - 1));
            assert(a[a.len() - 1] == va && b[b.len() - 1] == vb);
            lemma_kept_valid(va.fields@);
            lemma_kept_valid(vb.fields@);
            let ka = kept_fields(va.fields@);
            let kb = kept_fields(vb.fields@);
            assert forall|i: int| 0 <= i < ka.len() implies ka[i] == kb[i] by {
                assert(pa[i] == pb[i]);
                lemma_pair_line_injective(ka[i], kb[i]);
            }
            assert(ka =~= kb);
            assert forall|i: int| 0 <= i < a.drop_last().len() implies {
                &&& forall|k: int| 0 <= k < (#[trigger] a.drop_last()[i]).name@.len() ==> a.drop_last()[i].name@[k] != '\n'
                &&& valid_fields(a.drop_last()[i].fields@)
            } by {
                assert(a.drop_last()[i] == a[i]);
            }
            assert forall|i: int| 0 <= i < b.drop_last().len() implies {
                &&& forall|k: int| 0 <= k < (#[trigger] b.drop_last()[i]).name@.len() ==> b.drop_last()[i].name@[k] != '\n'
                &&& valid_fields(b.drop_last()[i].fields@)
            } by {
                assert(b.drop_last()[i] == b[i]);
            }
            lemma_variant_lines_injective(a.drop_last(), b.drop_last());
            let sa = a.map_values(|v: Variant| variant_shape(v));
            let sb = b.map_values(|v: Variant| variant_shape(v));
            assert(sa.drop_last() =~= a.drop_last().map_values(|v: Variant| variant_shape(v)));
            assert(sb.drop_last() =~= b.drop_last().map_values(|v: Variant| variant_shape(v)));
            assert(sa =~= sa.drop_last().push(sa.last()));
            assert(sb =~= sb.drop_last().push(sb.last()));
        }
    }
}

/// Two sum types of one name whose variants differ in shape (a variant added, removed, renamed
/// or reordered, or a kept payload field changed) have different canonical texts, so their
/// digests differ unless SHA-256 collides.
pub proof fn lemma_sum_text_tracks_variants(name: Seq<char>, vs1: Seq<Variant>, vs2: Seq<Variant>)
    requires
        valid_variants(vs1),
        valid_variants(vs2),
        vs1.map_values(|v: Variant| variant_shape(v)) != vs2.map_values(|v: Variant| variant_shape(v)),
    ensures
        sum_text(name, vs1) != sum_text(name, vs2),
{
    lemma_variant_lines_text(vs1);
    lemma_variant_lines_text(vs2);
    if sum_text(name, vs1) == sum_text(name, vs2) {
        let h = "enum_name:"@ + name + "\n"@;
        assert(variants_text(vs1) =~= sum_text(name, vs1).skip(h.len() as int));
        assert(variants_text(vs2) =~= sum_text(name, vs2).skip(h.len() as int));
        lemma_concat_lines_injective(variant_lines(vs1), variant_lines(vs2));
        lemma_variant_lines_injective(vs1, vs2);
    }
}

} // verus!
