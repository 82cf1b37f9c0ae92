//! Laws relating the encoder, the flattener and the decoder.
use vstd::prelude::*;

use crate::de::{committed, in_run, label_at, outer_of, prefix_at, run_end, starts_with};
use crate::error::DeserializeError;
use crate::schema::{
    lemma_entry_models_concat, lemma_variant_index_bound, variant_index,
    decode_entries_spec, decode_scope_spec, decode_spec, entry_models, keyed_spec, model, models,
    opens, seq_spec, step_start, ValueModel,
};
use crate::de::{parse_all, parse_line, raw_lines};
use crate::ser::{line_text, doc_text, lemma_nodes_lines_push, lemma_prefixed_prefixed, node_lines, nodes_lines, TreeNode};
use crate::text::{
    dec, digit_char, is_ws, join_with, lemma_first_index, split_on, trim, trim_end,
    trim_start,
};
use crate::value::{
    elements_lines, entries_lines, length_label, prefixed, type_label, value_lines, LineModel, Shape, Value,
};

verus! {

/// `v` has the shape `s`, keyed names match, neighbouring keys differ,
/// every keyed value has an entry, and a tagged variant names a keyed
/// variant of its shape.
pub open spec fn fits(v: Value, s: Shape) -> bool
    decreases v,
{
    match v {
        Value::Scalar(_) => s is Scalar,
        Value::Sequence(items) => match s {
            Shape::Sequence(e) => all_fit(items@, *e),
            _ => false,
        },
        Value::Keyed(es) => match s {
            Shape::Keyed(fs) => es@.len() > 0 && keys_fit(es@, fs@) && entries_fit(es@, fs@),
            Shape::Variant(vs) => variant_fits(es@, vs@),
            _ => false,
        },
    }
}

/// `es` is a tagged variant of one of `vs`: a scalar `type` entry whose
/// text names the variant's index, then entries that fit that variant's
/// keyed shape, the first of them not named `type`.
pub open spec fn variant_fits(es: Seq<(String, Value)>, vs: Seq<Shape>) -> bool
    decreases es,
{
    &&& es.len() > 0
    &&& es[0].0@ == type_label()
    &&& es[0].1 is Scalar
    &&& es.len() > 1 ==> es[1].0@ != type_label()
    &&& match variant_index(es[0].1->Scalar_0@, vs.len()) {
        Some(k) => match vs[k as int] {
            Shape::Keyed(fs) => keys_fit(es.subrange(1, es.len() as int), fs@) && entries_fit(
                es.subrange(1, es.len() as int),
                fs@,
            ),
            _ => false,
        },
        None => false,
    }
}

/// Every element fits `e`.
pub open spec fn all_fit(items: Seq<Value>, e: Shape) -> bool
    decreases items,
{
    items.len() == 0 || (all_fit(items.subrange(0, (items.len() - 1) as int), e) && fits(
        items[items.len() - 1],
        e,
    ))
}

/// Every entry's value fits the shape of the field at its index.
pub open spec fn entries_fit(es: Seq<(String, Value)>, fs: Seq<(String, Shape)>) -> bool
    decreases es,
{
    es.len() == 0 || (entries_fit(es.subrange(0, (es.len() - 1) as int), fs) && es.len() <= fs.len()
        && fits(es[es.len() - 1].1, fs[es.len() - 1].1))
}

pub proof fn lemma_all_fit_index(items: Seq<Value>, e: Shape)
    requires
        all_fit(items, e),
    ensures
        forall|i: int| 0 <= i < items.len() ==> #[trigger] fits(items[i], e),
    decreases items.len(),
{
    if items.len() > 0 {
        let init = items.subrange(0, (items.len() - 1) as int);
        lemma_all_fit_index(init, e);
        assert forall|i: int| 0 <= i < items.len() implies #[trigger] fits(items[i], e) by {
            if i < items.len() - 1 {
                assert(init[i] == items[i]);
            }
        }
    }
}

pub proof fn lemma_entries_fit_index(es: Seq<(String, Value)>, fs: Seq<(String, Shape)>)
    requires
        entries_fit(es, fs),
        es.len() <= fs.len(),
    ensures
        forall|i: int| 0 <= i < es.len() ==> #[trigger] fits(es[i].1, fs[i].1),
    decreases es.len(),
{
    if es.len() > 0 {
        let init = es.subrange(0, (es.len() - 1) as int);
        lemma_entries_fit_index(init, fs);
        assert forall|i: int| 0 <= i < es.len() implies #[trigger] fits(es[i].1, fs[i].1) by {
            if i < es.len() - 1 {
                assert(init[i] == es[i]);
            }
        }
    }
}

/// The keys are the field names, in order, and no two neighbours are equal.
pub open spec fn keys_fit(es: Seq<(String, Value)>, fs: Seq<(String, Shape)>) -> bool {
    &&& es.len() == fs.len()
    &&& forall|k: int| 0 <= k < es.len() ==> (#[trigger] es[k]).0@ == fs[k].0@
    &&& forall|k: int| 0 < k < es.len() ==> (#[trigger] es[k]).0@ != es[k - 1].0@
}


/// A value that can stand as a whole document and be read back with `s`:
/// as `fits`, except that the top keyed value may be empty.
pub open spec fn fits_doc(v: Value, s: Shape) -> bool {
    match v {
        Value::Scalar(_) => false,
        Value::Sequence(_) => fits(v, s),
        Value::Keyed(es) => match s {
            Shape::Keyed(fs) => keys_fit(es@, fs@) && entries_fit(es@, fs@),
            Shape::Variant(vs) => variant_fits(es@, vs@),
            _ => false,
        },
    }
}

pub proof fn lemma_run_over(doc: Seq<LineModel>, a: nat, b: nat, d: nat, c: Seq<Seq<char>>)
    requires
        a <= b <= doc.len(),
        forall|j: int| a <= j < b ==> prefix_at(#[trigger] doc[j].0, d) == c,
        b == doc.len() || !in_run(doc[b as int].0, d, c),
    ensures
        run_end(doc, a, d, c) == b,
    decreases b - a,
{
    if a < b {
        assert(c.take(c.len() as int) =~= c);
        lemma_run_over(doc, a + 1, b, d, c);
    }
}

pub proof fn lemma_digit_char(x: nat, y: nat)
    requires
        x < 10,
        y < 10,
        digit_char(x) == digit_char(y),
    ensures
        x == y,
{
}

pub proof fn lemma_dec_shape(n: nat)
    ensures
        dec(n).len() >= 1,
        dec(n).last() == digit_char(n % 10),
        n >= 10 ==> dec(n).len() >= 2 && dec(n).drop_last() == dec(n / 10),
    decreases n,
{
    if n >= 10 {
        lemma_dec_shape(n / 10);
        assert(dec(n).drop_last() =~= dec(n / 10));
    }
}

/// Different counts have different decimal texts.
pub proof fn lemma_dec_injective(a: nat, b: nat)
    requires
        dec(a) == dec(b),
    ensures
        a == b,
    decreases a,
{
    lemma_dec_shape(a);
    lemma_dec_shape(b);
    lemma_digit_char(a % 10, b % 10);
    if a >= 10 && b >= 10 {
        lemma_dec_injective(a / 10, b / 10);
        assert(a == 10 * (a / 10) + a % 10);
        assert(b == 10 * (b / 10) + b % 10);
    }
}

/// No decimal text is the label `length`.
pub proof fn lemma_dec_not_length(n: nat)
    ensures
        dec(n) != length_label(),
{
    lemma_dec_shape(n);
}

pub proof fn lemma_models_index(items: Seq<Value>)
    ensures
        models(items).len() == items.len(),
        forall|i: int| 0 <= i < items.len() ==> #[trigger] models(items)[i] == model(items[i]),
    decreases items.len(),
{
    if items.len() > 0 {
        lemma_models_index(items.subrange(0, (items.len() - 1) as int));
    }
}

pub proof fn lemma_entry_models_index(es: Seq<(String, Value)>)
    ensures
        entry_models(es).len() == es.len(),
        forall|i: int|
            0 <= i < es.len() ==> #[trigger] entry_models(es)[i] == (es[i].0@, model(es[i].1)),
    decreases es.len(),
{
    if es.len() > 0 {
        lemma_entry_models_index(es.subrange(0, (es.len() - 1) as int));
    }
}

/// The lines of the first `j` entries begin the lines of all of them, and
/// entry `j`'s lines follow.
pub proof fn lemma_entries_lines_prefix(es: Seq<(String, Value)>, j: int)
    requires
        0 <= j <= es.len(),
    ensures
        entries_lines(es.take((j) as int)).len() <= entries_lines(es).len(),
        entries_lines(es).take(entries_lines(es.take(j)).len() as int) == entries_lines(es.take((j) as int)),
        j < es.len() ==> entries_lines(es.take((j + 1) as int)) == entries_lines(es.take((j) as int)) + prefixed(
            seq![es[j].0@],
            value_lines(es[j].1),
        ),
    decreases es.len() - j,
{
    if j < es.len() {
        assert(es.take((j + 1) as int).subrange(0, (j) as int) =~= es.take((j) as int));
        lemma_entries_lines_prefix(es, j + 1);
        let a = entries_lines(es.take((j) as int));
        let b = entries_lines(es.take((j + 1) as int));
        assert(b.take(a.len() as int) =~= a);
        assert(entries_lines(es).take(a.len() as int) =~= a);
    } else {
        assert(es.take((j) as int) =~= es);
        assert(entries_lines(es).take(entries_lines(es).len() as int) =~= entries_lines(es));
    }
}

pub proof fn lemma_elements_lines_prefix(items: Seq<Value>, j: int)
    requires
        0 <= j <= items.len(),
    ensures
        elements_lines(items.take((j) as int)).len() <= elements_lines(items).len(),
        elements_lines(items).take(elements_lines(items.take(j)).len() as int) == elements_lines(
            items.take((j) as int),
        ),
        j < items.len() ==> elements_lines(items.take((j + 1) as int)) == elements_lines(items.take((j) as int))
            + prefixed(seq![dec(j as nat)], value_lines(items[j])),
    decreases items.len() - j,
{
    if j < items.len() {
        assert(items.take((j + 1) as int).subrange(0, (j) as int) =~= items.take((j) as int));
        lemma_elements_lines_prefix(items, j + 1);
        let a = elements_lines(items.take((j) as int));
        let b = elements_lines(items.take((j + 1) as int));
        assert(b.take(a.len() as int) =~= a);
        assert(elements_lines(items).take(a.len() as int) =~= a);
    } else {
        assert(items.take((j) as int) =~= items);
        assert(elements_lines(items).take(elements_lines(items).len() as int) =~= elements_lines(
            items,
        ));
    }
}

/// A value that fits a shape has at least one line.
pub proof fn lemma_lines_nonempty(v: Value, s: Shape)
    requires
        fits(v, s),
    ensures
        value_lines(v).len() > 0,
    decreases v,
{
    match v {
        Value::Scalar(_) => {},
        Value::Sequence(items) => {},
        Value::Keyed(es) if s is Variant => {
            lemma_entries_lines_prefix(es@, 1);
            let h = es@.take(1);
            assert(h.subrange(0, 0) =~= Seq::<(String, Value)>::empty());
            assert(h[0] == es@[0]);
            assert(es@[0].1 is Scalar);
            assert(value_lines(h[0].1).len() == 1);
            assert(entries_lines(h.subrange(0, 0)).len() == 0);
            assert(prefixed(seq![h[0].0@], value_lines(h[0].1)).len() == 1);
            assert(entries_lines(h).len() == 1);
        },
        Value::Keyed(es) => {
            let n = es@.len();
            assert(s is Keyed);
            let fs = s->Keyed_0;
            assert(n > 0);
            assert(decreases_to!(v => v->Keyed_0));
            vstd::std_specs::vec::axiom_vec_index_decreases(es, n - 1);
            assert(fits(es@[n - 1].1, fs@[n - 1].1));
            lemma_lines_nonempty(es@[n - 1].1, fs@[n - 1].1);
        },
    }
}

/// A block of lines inside a prefixed run of lines sits in the document
/// with the same prefix.
pub proof fn lemma_block(
    doc: Seq<LineModel>,
    base: int,
    q: Seq<Seq<char>>,
    ls: Seq<LineModel>,
    a: int,
    x: Seq<LineModel>,
)
    requires
        0 <= base,
        base + ls.len() <= doc.len(),
        doc.subrange((base) as int, (base + ls.len()) as int) == prefixed(q, ls),
        0 <= a,
        a + x.len() <= ls.len(),
        ls.subrange((a) as int, (a + x.len()) as int) == x,
    ensures
        doc.subrange((base + a) as int, (base + a + x.len()) as int) == prefixed(q, x),
{
    assert forall|j: int| 0 <= j < x.len() implies #[trigger] doc.subrange((base + a) as int, (base + a + x.len()) as int)[j] == prefixed(q, x)[j] by {
        assert(doc.subrange((base) as int, (base + ls.len()) as int)[a + j] == doc[base + a + j]);
        assert(prefixed(q, ls)[a + j] == (q + ls[a + j].0, ls[a + j].1));
        assert(ls.subrange((a) as int, (a + x.len()) as int)[j] == ls[a + j]);
        assert(ls[a + j] == x[j]);
        assert(prefixed(q, x)[j] == (q + x[j].0, x[j].1));
        assert(doc.subrange((base + a) as int, (base + a + x.len()) as int)[j] == doc[base + a + j]);
    }
    assert(doc.subrange((base + a) as int, (base + a + x.len()) as int) =~= prefixed(q, x));
}

/// What the first line of a block written under `q.push(key)` tells the
/// scope engine: every line of the block has that prefix at depth
/// `q.len()`, the block begins inside `q`, and its label is `key`.
pub proof fn lemma_block_lines(
    doc: Seq<LineModel>,
    base: nat,
    q: Seq<Seq<char>>,
    key: Seq<char>,
    x: Seq<LineModel>,
)
    requires
        x.len() > 0,
        base + x.len() <= doc.len(),
        doc.subrange(base as int, (base + x.len()) as int) == prefixed(q.push(key), x),
    ensures
        forall|j: int|
            base <= j < base + x.len() ==> prefix_at(#[trigger] doc[j].0, q.len()) == q.push(key),
        opens(doc, base, q),
        label_at(doc, base, q.len(), None) == Some(key),
        committed(doc, base, q.len(), None) == q.push(key),
        outer_of(doc, base, q.len() + 1) == q.push(key),
        doc[base as int].0 == q.push(key) + x[0].0,
        doc[base as int].1 == x[0].1,
{
    let qk = q.push(key);
    assert forall|j: int| base <= j < base + x.len() implies prefix_at(
        #[trigger] doc[j].0,
        q.len(),
    ) == qk by {
        assert(doc.subrange(base as int, (base + x.len()) as int)[j - base] == doc[j]);
        assert(prefixed(qk, x)[j - base] == (qk + x[j - base].0, x[j - base].1));
        assert((qk + x[j - base].0).take((q.len() + 1) as int) =~= qk);
    }
    assert(doc.subrange(base as int, (base + x.len()) as int)[0] == doc[base as int]);
    assert(prefixed(qk, x)[0] == (qk + x[0].0, x[0].1));
    let path = doc[base as int].0;
    assert(path.take(q.len() as int) =~= q);
    assert(path.take((q.len() + 1) as int) =~= qk);
}

/// Two blocks under different labels at the same depth have different
/// prefixes there.
pub proof fn lemma_labels_differ(q: Seq<Seq<char>>, a: Seq<char>, b: Seq<char>)
    requires
        a != b,
    ensures
        q.push(a) != q.push(b),
        !starts_with(q.push(b), q.push(a)),
{
    assert(q.push(b).take(q.len() + 1 as int) =~= q.push(b));
    assert(q.push(a)[q.len() as int] == a);
    assert(q.push(b)[q.len() as int] == b);
}

/// The line at `end`, if any, lies outside `c`: its path cut to `c.len()`
/// segments is not a prefix of `c`.
pub open spec fn closes(doc: Seq<LineModel>, end: nat, c: Seq<Seq<char>>) -> bool {
    end >= doc.len() || !starts_with(
        c,
        doc[end as int].0.take(
            if c.len() <= doc[end as int].0.len() {
                c.len() as int
            } else {
                doc[end as int].0.len() as int
            },
        ),
    )
}

/// A line outside `q` is outside every `q.push(k)`.
pub proof fn lemma_closes_extend(doc: Seq<LineModel>, end: nat, q: Seq<Seq<char>>, k: Seq<char>)
    requires
        closes(doc, end, q),
    ensures
        closes(doc, end, q.push(k)),
{
    if end < doc.len() {
        let path = doc[end as int].0;
        let qk = q.push(k);
        let t = path.take(if qk.len() <= path.len() { qk.len() as int } else { path.len() as int });
        let t2 = path.take(if q.len() <= path.len() { q.len() as int } else { path.len() as int });
        if starts_with(qk, t) {
            assert forall|i: int| 0 <= i < t2.len() implies q[i] == t2[i] by {
                assert(t2[i] == t[i]);
                assert(qk.take(t.len() as int)[i] == qk[i]);
            }
            assert(q.take(t2.len() as int) =~= t2);
        }
    }
}

/// The first line of a sibling under another label lies outside `q.push(a)`.
pub proof fn lemma_closes_by_sibling(
    doc: Seq<LineModel>,
    end: nat,
    q: Seq<Seq<char>>,
    a: Seq<char>,
    b: Seq<char>,
    rest: Seq<Seq<char>>,
)
    requires
        a != b,
        end < doc.len(),
        doc[end as int].0 == q.push(b) + rest,
    ensures
        closes(doc, end, q.push(a)),
        !in_run(doc[end as int].0, q.len(), q.push(a)),
{
    let path = doc[end as int].0;
    assert(path.take(q.len() + 1 as int) =~= q.push(b));
    lemma_labels_differ(q, b, a);
}

/// A line outside `c` ends a run at depth `c.len() - 1` committed to `c`.
pub proof fn lemma_closes_ends_run(doc: Seq<LineModel>, end: nat, c: Seq<Seq<char>>)
    requires
        c.len() > 0,
        end < doc.len(),
        closes(doc, end, c),
    ensures
        !in_run(doc[end as int].0, (c.len() - 1) as nat, c),
{
    let path = doc[end as int].0;
    if path.len() <= c.len() - 1 {
        assert(path.take(path.len() as int) =~= path);
    }
}

/// Reading the run of `v`'s lines, written under `q.push(key)`, as `s`
/// gives `v` back.
pub proof fn lemma_scope_reads(
    doc: Seq<LineModel>,
    pos: nat,
    q: Seq<Seq<char>>,
    key: Seq<char>,
    v: Value,
    s: Shape,
)
    requires
        fits(v, s),
        pos + value_lines(v).len() <= doc.len(),
        doc.subrange(pos as int, (pos + value_lines(v).len()) as int) == prefixed(q.push(key), value_lines(v)),
        closes(doc, (pos + value_lines(v).len()) as nat, q.push(key)),
    ensures
        decode_scope_spec(doc, pos, q.len(), s) == Ok::<ValueModel, DeserializeError>(model(v)),
    decreases v, 2nat, 0int,
{
    lemma_lines_nonempty(v, s);
    let ls = value_lines(v);
    lemma_block_lines(doc, pos, q, key, ls);
    match v {
        Value::Scalar(t) => {
            assert(q.push(key) + ls[0].0 =~= q.push(key));
            if pos + 1 < doc.len() {
                lemma_closes_ends_run(doc, (pos + 1) as nat, q.push(key));
            }
            lemma_run_over(doc, pos, (pos + 1) as nat, q.len(), q.push(key));
        },
        _ => {
            lemma_entries_read(doc, pos, q.push(key), v, s);
        },
    }
}

/// Reading the lines of `v`, written under `q`, as the scopes at depth
/// `q.len()` gives `v` back.
pub proof fn lemma_entries_read(doc: Seq<LineModel>, pos: nat, q: Seq<Seq<char>>, v: Value, s: Shape)
    requires
        fits_doc(v, s),
        pos + value_lines(v).len() <= doc.len(),
        doc.subrange(pos as int, (pos + value_lines(v).len()) as int) == prefixed(q, value_lines(v)),
        closes(doc, (pos + value_lines(v).len()) as nat, q),
    ensures
        decode_entries_spec(doc, pos, q.len(), q, s) == Ok::<ValueModel, DeserializeError>(model(v)),
    decreases v, 1nat, 0int,
{
    match v {
        Value::Keyed(es) => {
            assert(decreases_to!(v => v->Keyed_0));
            assert(decreases_to!(v->Keyed_0 => v->Keyed_0@));
            if s is Variant {
                lemma_variant_reads(doc, pos, q, v, s);
            } else {
                assert(es@.take(0) =~= Seq::<(String, Value)>::empty());
                lemma_keyed_reads(doc, pos, q, es@, s, 0, pos, true);
                assert(entry_models(es@).skip(0) =~= entry_models(es@));
            }
        },
        Value::Sequence(items) => {
            assert(items@.take(0) =~= Seq::<Value>::empty());
            lemma_seq_reads(doc, pos, q, v, s, 0, pos, true);
            assert(models(items@).skip(0) =~= models(items@));
        },
        Value::Scalar(_) => {},
    }
}

pub proof fn lemma_keyed_reads(
    doc: Seq<LineModel>,
    pos0: nat,
    q: Seq<Seq<char>>,
    es: Seq<(String, Value)>,
    s: Shape,
    k: nat,
    pos: nat,
    first: bool,
)
    requires
        s is Keyed,
        keys_fit(es, s->Keyed_0@),
        entries_fit(es, s->Keyed_0@),
        pos0 + entries_lines(es).len() <= doc.len(),
        doc.subrange(pos0 as int, (pos0 + entries_lines(es).len()) as int) == prefixed(q, entries_lines(es)),
        closes(doc, (pos0 + entries_lines(es).len()) as nat, q),
        k <= es.len(),
        k < es.len() ==> step_start(doc, pos, first, q.len()) == pos0 + entries_lines(
            es.take(k as int),
        ).len(),
    ensures
        keyed_spec(doc, pos, first, q.len(), q, s, k) == Ok::<
            Seq<(Seq<char>, ValueModel)>,
            DeserializeError,
        >(entry_models(es).skip(k as int)),
    decreases es, 0nat, es.len() - k,
{
    let fs = s->Keyed_0;
    let n = es.len();
    let d = q.len();
    let ls = entries_lines(es);
    lemma_entry_models_index(es);
    if k == n {
        assert(entry_models(es).skip(k as int) =~= Seq::<(Seq<char>, ValueModel)>::empty());
    } else {
        lemma_entries_fit_index(es, fs@);
        lemma_entries_lines_prefix(es, k as int);
        lemma_entries_lines_prefix(es, k as int + 1);
        let key = es[k as int].0@;
        let vk = es[k as int].1;
        let x = value_lines(vk);
        let b = prefixed(seq![key], x);
        let a = entries_lines(es.take(k as int)).len();
        let p = pos0 + a;
        assert(ls.subrange(a as int, (a + b.len() as int) as int) =~= b) by {
            assert(ls.take((a + b.len() as int) as int) == entries_lines(es.take(k as int)) + b);
            assert(ls.subrange(a as int, (a + b.len() as int) as int) =~= ls.take((a + b.len() as int) as int).subrange(a as int, (a + b.len() as int) as int, ));
        }
        lemma_block(doc, pos0 as int, q, ls, a as int, b);
        lemma_prefixed_prefixed(q, key, x);
        assert(fits(vk, fs@[k as int].1));
        lemma_lines_nonempty(vk, fs@[k as int].1);
        lemma_block_lines(doc, p, q, key, x);
        assert(decreases_to!(es => es[k as int]));
        assert(decreases_to!(es[k as int] => es[k as int].1));
        if k + 1 < n {
            lemma_entries_lines_prefix(es, k as int + 2);
            let key2 = es[k as int + 1].0@;
            let vk2 = es[k as int + 1].1;
            let x2 = value_lines(vk2);
            let b2 = prefixed(seq![key2], x2);
            let a2 = a + b.len();
            assert(ls.subrange(a2 as int, (a2 + b2.len()) as int) =~= b2) by {
                assert(ls.take((a2 + b2.len()) as int) == entries_lines(es.take((k + 1) as int)) + b2);
                assert(ls.subrange(a2 as int, (a2 + b2.len()) as int) =~= ls.take((a2 + b2.len()) as int).subrange(a2 as int, (a2 + b2.len()) as int, ));
            }
            lemma_block(doc, pos0 as int, q, ls, a2 as int, b2);
            lemma_prefixed_prefixed(q, key2, x2);
            assert(fits(vk2, fs@[k as int + 1].1));
            lemma_lines_nonempty(vk2, fs@[k as int + 1].1);
            lemma_block_lines(doc, p + b.len(), q, key2, x2);
            assert(key2 != key);
            lemma_labels_differ(q, key2, key);
            lemma_closes_by_sibling(doc, (p + b.len()) as nat, q, key, key2, x2[0].0);
            lemma_run_over(doc, p, p + b.len(), d, q.push(key));
        } else {
            assert(es.take(k as int + 1) =~= es);
            lemma_closes_extend(doc, (pos0 + ls.len()) as nat, q, key);
        }
        lemma_scope_reads(doc, p, q, key, vk, fs@[k as int].1);
        lemma_keyed_reads(doc, pos0, q, es, s, k + 1, p, false);
        assert(seq![(fs@[k as int].0@, model(vk))] + entry_models(es).skip((k + 1) as int)
            =~= entry_models(es).skip(k as int));
    }
}

/// The lines of entries written one after another are the lines of each
/// part, in order.
pub proof fn lemma_entries_lines_concat(a: Seq<(String, Value)>, b: Seq<(String, Value)>)
    ensures
        entries_lines(a + b) == entries_lines(a) + entries_lines(b),
    decreases b.len(),
{
    if b.len() == 0 {
        assert(a + b =~= a);
        assert(entries_lines(a) + entries_lines(b) =~= entries_lines(a));
    } else {
        let init = b.subrange(0, b.len() - 1);
        lemma_entries_lines_concat(a, init);
        assert((a + b).subrange(0, (a + b).len() - 1) =~= a + init);
        assert(b.subrange(0, b.len() - 1) == init);
        assert((a + b)[(a + b).len() - 1] == b[b.len() - 1]);
        let last = prefixed(seq![b[b.len() - 1].0@], value_lines(b[b.len() - 1].1));
        assert(entries_lines(a) + entries_lines(init) + last =~= entries_lines(a) + (entries_lines(
            init,
        ) + last));
    }
}

/// Reading the lines of a tagged variant, written under `q`, with a variant
/// shape gives the variant back.
pub proof fn lemma_variant_reads(doc: Seq<LineModel>, pos: nat, q: Seq<Seq<char>>, v: Value, s: Shape)
    requires
        v is Keyed,
        s is Variant,
        fits_doc(v, s),
        pos + value_lines(v).len() <= doc.len(),
        doc.subrange(pos as int, (pos + value_lines(v).len()) as int) == prefixed(q, value_lines(v)),
        closes(doc, (pos + value_lines(v).len()) as nat, q),
    ensures
        decode_entries_spec(doc, pos, q.len(), q, s) == Ok::<ValueModel, DeserializeError>(model(v)),
    decreases v, 0nat, 0int,
{
    let es = v->Keyed_0@;
    let vs = s->Variant_0@;
    let n = es.len();
    let d = q.len();
    let ls = value_lines(v);
    let t = es[0].1->Scalar_0@;
    let head = es.take(1);
    let rest = es.subrange(1, n as int);
    assert(head + rest =~= es);
    lemma_entries_lines_concat(head, rest);
    assert(head.subrange(0, 0) =~= Seq::<(String, Value)>::empty());
    let hl = seq![(Seq::<Seq<char>>::empty(), t)];
    assert(head[0] == es[0]);
    assert(value_lines(head[0].1) == hl);
    assert(entries_lines(head.subrange(0, 0)) == Seq::<LineModel>::empty());
    assert(entries_lines(head) =~= prefixed(seq![type_label()], hl));
    assert(prefixed(seq![type_label()], hl) =~= seq![(seq![type_label()], t)]);
    let rl = entries_lines(rest);
    assert(ls == entries_lines(head) + rl);
    assert(ls.subrange(0, 1) =~= entries_lines(head));
    assert(ls.subrange(1, 1 + rl.len() as int) =~= rl);
    lemma_block(doc, pos as int, q, ls, 0, entries_lines(head));
    lemma_block(doc, pos as int, q, ls, 1, rl);
    lemma_prefixed_prefixed(q, type_label(), hl);
    lemma_block_lines(doc, pos, q, type_label(), hl);
    assert(q.push(type_label()) + hl[0].0 =~= q.push(type_label()));
    let k = variant_index(t, vs.len())->Some_0;
    lemma_variant_index_bound(t, vs.len());
    let fs = vs[k as int]->Keyed_0@;
    if rest.len() > 0 {
        let key1 = rest[0].0@;
        assert(rest.take(0) =~= Seq::<(String, Value)>::empty());
        lemma_entries_lines_prefix(rest, 0);
        let x1 = value_lines(rest[0].1);
        let b1 = prefixed(seq![key1], x1);
        lemma_entries_lines_prefix(rest, 1);
        assert(entries_lines(rest.take(1)) == b1) by {
            assert(rest.take(1).subrange(0, 0) =~= rest.take(0));
        }
        lemma_entries_fit_index(rest, fs);
        lemma_lines_nonempty(rest[0].1, fs[0].1);
        assert(rl.subrange(0, b1.len() as int) =~= b1) by {
            assert(rl.subrange(0, b1.len() as int) =~= rl.take(b1.len() as int));
        }
        lemma_block(doc, (pos + 1) as int, q, rl, 0, b1);
        lemma_prefixed_prefixed(q, key1, x1);
        lemma_block_lines(doc, (pos + 1) as nat, q, key1, x1);
        lemma_closes_by_sibling(doc, (pos + 1) as nat, q, type_label(), key1, x1[0].0);
    } else {
        lemma_closes_extend(doc, (pos + 1) as nat, q, type_label());
        if pos + 1 < doc.len() {
            lemma_closes_ends_run(doc, (pos + 1) as nat, q.push(type_label()));
        }
    }
    lemma_run_over(doc, pos, (pos + 1) as nat, d, q.push(type_label()));
    assert(rest.take(0) =~= Seq::<(String, Value)>::empty());
    assert(decreases_to!(v => v->Keyed_0));
    assert(decreases_to!(v->Keyed_0 => v->Keyed_0@));
    assert(decreases_to!(es => rest));
    lemma_keyed_reads(doc, (pos + 1) as nat, q, rest, vs[k as int], 0, pos, false);
    assert(entry_models(rest).skip(0) =~= entry_models(rest));
    lemma_entry_models_concat(head, rest);
    lemma_entry_models_index(head);
    assert(entry_models(head) =~= seq![(type_label(), ValueModel::Scalar(t))]);
}

pub proof fn lemma_seq_reads(
    doc: Seq<LineModel>,
    pos0: nat,
    q: Seq<Seq<char>>,
    v: Value,
    s: Shape,
    i: nat,
    pos: nat,
    first: bool,
)
    requires
        v is Sequence,
        fits(v, s),
        pos0 + value_lines(v).len() <= doc.len(),
        doc.subrange(pos0 as int, (pos0 + value_lines(v).len()) as int) == prefixed(q, value_lines(v)),
        closes(doc, (pos0 + value_lines(v).len()) as nat, q),
        i <= v->Sequence_0@.len(),
        step_start(doc, pos, first, q.len()) == pos0 + elements_lines(
            v->Sequence_0@.take(i as int),
        ).len(),
    ensures
        seq_spec(doc, pos, first, q.len(), q, s, i) == Ok::<Seq<ValueModel>, DeserializeError>(
            models(v->Sequence_0@).skip(i as int),
        ),
    decreases v, 0nat, v->Sequence_0@.len() - i,
{
    let items = v->Sequence_0;
    let e = *s->Sequence_0;
    let n = items@.len();
    let d = q.len();
    let ls = value_lines(v);
    let el = elements_lines(items@);
    let tail = seq![(seq![length_label()], dec(n))];
    assert(ls == el + tail);
    lemma_models_index(items@);
    lemma_all_fit_index(items@, e);
    lemma_elements_lines_prefix(items@, i as int);
    let a = elements_lines(items@.take(i as int)).len();
    let p = pos0 + a;
    if i == n {
        assert(items@.take(i as int) =~= items@);
        assert(ls.subrange(a as int, (a + 1) as int) =~= tail);
        lemma_block(doc, pos0 as int, q, ls, a as int, tail);
        lemma_prefixed_prefixed(q, length_label(), seq![(Seq::<Seq<char>>::empty(), dec(n))]);
        assert(prefixed(seq![length_label()], seq![(Seq::<Seq<char>>::empty(), dec(n))]) =~= tail);
        lemma_block_lines(doc, p, q, length_label(), seq![(Seq::<Seq<char>>::empty(), dec(n))]);
        assert(q.push(length_label()) + Seq::<Seq<char>>::empty() =~= q.push(length_label()));
        assert(models(items@).skip(i as int) =~= Seq::<ValueModel>::empty());
        assert(p + 1 == pos0 + ls.len());
        lemma_closes_extend(doc, (p + 1) as nat, q, length_label());
        if p + 1 < doc.len() {
            lemma_closes_ends_run(doc, (p + 1) as nat, q.push(length_label()));
        }
        lemma_run_over(doc, p, (p + 1) as nat, d, q.push(length_label()));
    } else {
        lemma_elements_lines_prefix(items@, i as int + 1);
        let vi = items@[i as int];
        let x = value_lines(vi);
        let b = prefixed(seq![dec(i)], x);
        assert(ls.subrange(a as int, (a + b.len() as int) as int) =~= b) by {
            assert(el.take((a + b.len() as int) as int) == elements_lines(items@.take(i as int)) + b);
            assert(ls.subrange(a as int, (a + b.len() as int) as int) =~= el.take((a + b.len() as int) as int).subrange(a as int, (a + b.len() as int) as int, ));
        }
        lemma_block(doc, pos0 as int, q, ls, a as int, b);
        lemma_prefixed_prefixed(q, dec(i), x);
        lemma_lines_nonempty(vi, e);
        lemma_block_lines(doc, p, q, dec(i), x);
        lemma_dec_not_length(i);
        assert(decreases_to!(v => v->Sequence_0));
        vstd::std_specs::vec::axiom_vec_index_decreases(items, i as int);
        let a2 = a + b.len();
        assert(items@.take((i + 1) as int).len() == i + 1);
        if i + 1 < n {
            lemma_elements_lines_prefix(items@, i as int + 2);
            let x2 = value_lines(items@[i as int + 1]);
            let b2 = prefixed(seq![dec((i + 1) as nat)], x2);
            assert(ls.subrange(a2 as int, (a2 + b2.len()) as int) =~= b2) by {
                assert(el.take((a2 + b2.len()) as int) == elements_lines(items@.take((i + 1) as int)) + b2);
                assert(ls.subrange(a2 as int, (a2 + b2.len()) as int) =~= el.take((a2 + b2.len()) as int).subrange(a2 as int, (a2 + b2.len()) as int, ));
            }
            lemma_block(doc, pos0 as int, q, ls, a2 as int, b2);
            lemma_prefixed_prefixed(q, dec((i + 1) as nat), x2);
            lemma_lines_nonempty(items@[i as int + 1], e);
            lemma_block_lines(doc, p + b.len(), q, dec((i + 1) as nat), x2);
            if dec((i + 1) as nat) == dec(i) {
                lemma_dec_injective((i + 1) as nat, i);
            }
            lemma_labels_differ(q, dec((i + 1) as nat), dec(i));
            lemma_closes_by_sibling(doc, (p + b.len()) as nat, q, dec(i), dec((i + 1) as nat), x2[0].0);
        } else {
            assert(items@.take((i + 1) as int) =~= items@);
            assert(ls.subrange(a2 as int, (a2 + 1) as int) =~= tail);
            lemma_block(doc, pos0 as int, q, ls, a2 as int, tail);
            lemma_prefixed_prefixed(q, length_label(), seq![(Seq::<Seq<char>>::empty(), dec(n))]);
            assert(prefixed(seq![length_label()], seq![(Seq::<Seq<char>>::empty(), dec(n))]) =~= tail);
            lemma_block_lines(doc, p + b.len(), q, length_label(), seq![(Seq::<Seq<char>>::empty(), dec(n))]);
            lemma_labels_differ(q, length_label(), dec(i));
            lemma_closes_by_sibling(doc, (p + b.len()) as nat, q, dec(i), length_label(), Seq::<Seq<char>>::empty());
        }
        lemma_scope_reads(doc, p, q, dec(i), vi, e);
        lemma_run_over(doc, p, p + b.len(), d, q.push(dec(i)));
        lemma_seq_reads(doc, pos0, q, v, s, i + 1, p, false);
        assert(seq![model(vi)] + models(items@).skip((i + 1) as int) =~= models(items@).skip(i as int));
    }
}

/// Reading back what a value is written as: for a value that fits the
/// shape `s`, decoding its lines with `s` gives the value, element order
/// and all.
pub proof fn lemma_round_trip(v: Value, s: Shape)
    requires
        fits_doc(v, s),
    ensures
        decode_spec(value_lines(v), 0, s) == Ok::<ValueModel, DeserializeError>(model(v)),
{
    let doc = value_lines(v);
    let q = Seq::<Seq<char>>::empty();
    assert(doc.subrange(0, doc.len() as int) =~= prefixed(q, doc)) by {
        assert forall|j: int| 0 <= j < doc.len() implies #[trigger] prefixed(q, doc)[j] == doc[j] by {
            assert(q + doc[j].0 =~= doc[j].0);
        }
    }
    if doc.len() > 0 {
        assert(doc[0].0.take(0) =~= q);
    }
    assert(outer_of(doc, 0, 0) =~= q);
    lemma_entries_read(doc, 0, q, v, s);
}

/// Leaves are written in the order their subtrees were added, whatever
/// the nesting: the lines under the siblings `a` followed by `b` are the
/// lines under `a` followed by the lines under `b`.
pub proof fn lemma_flatten_order(a: Seq<TreeNode>, b: Seq<TreeNode>)
    ensures
        nodes_lines(a + b) == nodes_lines(a) + nodes_lines(b),
    decreases b.len(),
{
    if b.len() == 0 {
        assert(a + b =~= a);
        assert(nodes_lines(a) + nodes_lines(b) =~= nodes_lines(a));
    } else {
        let init = b.subrange(0, b.len() - 1);
        lemma_flatten_order(a, init);
        assert(a + b =~= (a + init).push(b.last()));
        lemma_nodes_lines_push(a + init, b.last());
        lemma_nodes_lines_push(init, b.last());
        assert(init.push(b.last()) =~= b);
        assert(nodes_lines(a) + nodes_lines(init) + node_lines(b.last()) =~= nodes_lines(a) + (
        nodes_lines(init) + node_lines(b.last())));
    }
}

/// Entries are written in order: the lines of entry `k` of a keyed value
/// stand together, right after the lines of the entries before it, each
/// under the entry's key.
pub proof fn lemma_keyed_order(es: Seq<(String, Value)>, k: int)
    requires
        0 <= k < es.len(),
    ensures
        ({
            let a = entries_lines(es.take(k)).len();
            let b = prefixed(seq![es[k].0@], value_lines(es[k].1));
            &&& a + b.len() <= entries_lines(es).len()
            &&& entries_lines(es).subrange(a as int, a + b.len() as int) == b
            &&& entries_lines(es.take(k + 1)).len() == a + b.len()
        }),
{
    lemma_entries_lines_prefix(es, k);
    lemma_entries_lines_prefix(es, k + 1);
    let a = entries_lines(es.take(k)).len();
    let b = prefixed(seq![es[k].0@], value_lines(es[k].1));
    let all = entries_lines(es);
    assert(all.take(a + b.len() as int) == entries_lines(es.take(k)) + b);
    assert(all.subrange(a as int, a + b.len() as int) =~= all.take(a + b.len() as int).subrange(a as int, a + b.len() as int));
}

/// Elements are written in order: the lines of element `i` of a sequence
/// stand together, right after the lines of the elements before it, each
/// under the label `i`; the `length` line comes last.
pub proof fn lemma_sequence_order(items: Seq<Value>, i: int)
    requires
        0 <= i < items.len(),
    ensures
        ({
            let a = elements_lines(items.take(i)).len();
            let b = prefixed(seq![dec(i as nat)], value_lines(items[i]));
            &&& a + b.len() <= elements_lines(items).len()
            &&& elements_lines(items).subrange(a as int, a + b.len() as int) == b
            &&& elements_lines(items.take(i + 1)).len() == a + b.len()
        }),
{
    lemma_elements_lines_prefix(items, i);
    lemma_elements_lines_prefix(items, i + 1);
    let a = elements_lines(items.take(i)).len();
    let b = prefixed(seq![dec(i as nat)], value_lines(items[i]));
    let all = elements_lines(items);
    assert(all.take(a + b.len() as int) == elements_lines(items.take(i)) + b);
    assert(all.subrange(a as int, a + b.len() as int) =~= all.take(a + b.len() as int).subrange(a as int, a + b.len() as int));
}

/// The empty document reads as the empty sequence, and as the empty keyed
/// value for a keyed shape without fields.
pub proof fn lemma_empty_document_reads(s: Shape)
    requires
        s is Sequence || (s is Keyed && s->Keyed_0@.len() == 0),
    ensures
        decode_spec(seq![], 0, s) == Ok::<ValueModel, DeserializeError>(
            if s is Sequence {
                ValueModel::Sequence(seq![])
            } else {
                ValueModel::Keyed(seq![])
            },
        ),
{
    let doc = Seq::<LineModel>::empty();
    assert(outer_of(doc, 0, 0) == Seq::<Seq<char>>::empty());
}

/// A keyed value without entries is written as the empty document.
pub proof fn lemma_empty_value_writes_nothing(v: Value)
    requires
        v is Keyed,
        v->Keyed_0@.len() == 0,
    ensures
        value_lines(v) == Seq::<LineModel>::empty(),
        doc_text(value_lines(v)) == Seq::<char>::empty(),
{
}

/// `s` holds no `c`.
pub open spec fn lacks(s: Seq<char>, c: char) -> bool {
    forall|i: int| 0 <= i < s.len() ==> s[i] != c
}

/// A path segment that reads back as itself: no `.`, `=` or newline.
pub open spec fn clean_segment(s: Seq<char>) -> bool {
    lacks(s, '.') && lacks(s, '=') && lacks(s, '\n')
}

/// A line whose text reads back as the same line: a path of at least one
/// clean segment, a value without newline, and no whitespace at either end
/// of the text.
pub open spec fn clean_line(l: LineModel) -> bool {
    &&& l.0.len() > 0
    &&& forall|k: int| 0 <= k < l.0.len() ==> clean_segment(#[trigger] l.0[k])
    &&& lacks(l.1, '\n')
    &&& (l.0[0].len() > 0 ==> !is_ws(l.0[0][0]))
    &&& (l.1.len() > 0 ==> !is_ws(l.1.last()))
}

/// The text of a line without its newline.
pub open spec fn line_body(l: LineModel) -> Seq<char> {
    join_with(l.0, '.') + seq!['='] + l.1
}

pub proof fn lemma_split_cons(a: Seq<char>, r: Seq<char>, c: char)
    requires
        lacks(a, c),
    ensures
        split_on(a + seq![c] + r, c) == seq![a] + split_on(r, c),
{
    let s = a + seq![c] + r;
    lemma_first_index(s, c, a.len() as int);
    assert(s.take(a.len() as int) =~= a);
    assert(s.skip(a.len() + 1 as int) =~= r);
}

pub proof fn lemma_join_front(path: Seq<Seq<char>>, c: char)
    requires
        path.len() >= 2,
    ensures
        join_with(path, c) == path[0].push(c) + join_with(path.drop_first(), c),
    decreases path.len(),
{
    if path.len() == 2 {
        assert(path.drop_last() =~= seq![path[0]]);
        assert(path.drop_first() =~= seq![path[1]]);
        assert(join_with(path.drop_last(), c) == path[0]);
        assert(join_with(path.drop_first(), c) == path[1]);
    } else {
        let init = path.drop_last();
        lemma_join_front(init, c);
        let tail = path.drop_first();
        assert(init.drop_first() =~= tail.drop_last());
        assert(tail.last() == path.last());
        assert(join_with(tail, c) == join_with(tail.drop_last(), c).push(c) + tail.last());
        assert(join_with(path, c) == join_with(init, c).push(c) + path.last());
        assert(join_with(path, c) =~= path[0].push(c) + join_with(tail, c));
    }
}

pub proof fn lemma_join_lacks(path: Seq<Seq<char>>, c: char, x: char)
    requires
        x != c,
        forall|k: int| 0 <= k < path.len() ==> lacks(#[trigger] path[k], x),
    ensures
        lacks(join_with(path, c), x),
    decreases path.len(),
{
    if path.len() >= 2 {
        lemma_join_lacks(path.drop_last(), c, x);
        let j = join_with(path.drop_last(), c).push(c);
        assert(lacks(path.last(), x));
        assert forall|i: int| 0 <= i < join_with(path, c).len() implies join_with(path, c)[i] != x by {
            if i >= j.len() {
                assert(join_with(path, c)[i] == path.last()[i - j.len()]);
            } else {
                assert(join_with(path, c)[i] == j[i]);
            }
        }
    } else if path.len() == 1 {
        assert(lacks(path[0], x));
    }
}

/// Splitting a joined path gives the path back.
pub proof fn lemma_split_join(path: Seq<Seq<char>>, c: char)
    requires
        path.len() > 0,
        forall|k: int| 0 <= k < path.len() ==> lacks(#[trigger] path[k], c),
    ensures
        split_on(join_with(path, c), c) == path,
    decreases path.len(),
{
    if path.len() == 1 {
        assert(lacks(path[0], c));
        lemma_first_index(path[0], c, path[0].len() as int);
        assert(split_on(path[0], c) == seq![path[0]]);
        assert(seq![path[0]] =~= path);
    } else {
        lemma_join_front(path, c);
        assert(lacks(path[0], c));
        lemma_split_join(path.drop_first(), c);
        assert(path[0].push(c) =~= path[0] + seq![c]);
        lemma_split_cons(path[0], join_with(path.drop_first(), c), c);
        assert(seq![path[0]] + path.drop_first() =~= path);
    }
}

pub proof fn lemma_doc_text_front(ls: Seq<LineModel>)
    requires
        ls.len() > 0,
    ensures
        doc_text(ls) == line_text(ls[0]) + doc_text(ls.drop_first()),
    decreases ls.len(),
{
    if ls.len() == 1 {
        assert(ls.drop_last() =~= Seq::<LineModel>::empty());
        assert(ls.drop_first() =~= Seq::<LineModel>::empty());
        assert(doc_text(ls) =~= line_text(ls[0]) + doc_text(ls.drop_first()));
    } else {
        lemma_doc_text_front(ls.drop_last());
        assert(ls.drop_last().drop_first() =~= ls.drop_first().drop_last());
        assert(ls.drop_first().last() == ls.last());
        assert(doc_text(ls) =~= line_text(ls[0]) + doc_text(ls.drop_first()));
    }
}

pub proof fn lemma_body_lacks_newline(l: LineModel)
    requires
        clean_line(l),
    ensures
        lacks(line_body(l), '\n'),
        line_text(l) == line_body(l) + seq!['\n'],
{
    assert forall|k: int| 0 <= k < l.0.len() implies lacks(#[trigger] l.0[k], '\n') by {
        assert(clean_segment(l.0[k]));
    }
    lemma_join_lacks(l.0, '.', '\n');
    let j = join_with(l.0, '.');
    assert forall|i: int| 0 <= i < line_body(l).len() implies line_body(l)[i] != '\n' by {
        if i < j.len() {
            assert(line_body(l)[i] == j[i]);
        } else if i > j.len() {
            assert(line_body(l)[i] == l.1[i - j.len() - 1]);
        }
    }
    assert(line_text(l) =~= line_body(l) + seq!['\n']);
}

/// The pieces of a document's text between newlines are the bodies of its
/// lines, then an empty piece.
pub proof fn lemma_split_doc(ls: Seq<LineModel>)
    requires
        forall|i: int| 0 <= i < ls.len() ==> clean_line(#[trigger] ls[i]),
    ensures
        split_on(doc_text(ls), '\n') == ls.map_values(|l: LineModel| line_body(l)).push(
            Seq::<char>::empty(),
        ),
    decreases ls.len(),
{
    if ls.len() == 0 {
        lemma_first_index(Seq::<char>::empty(), '\n', 0);
        assert(ls.map_values(|l: LineModel| line_body(l)).push(Seq::<char>::empty()) =~= seq![
            Seq::<char>::empty(),
        ]);
    } else {
        lemma_doc_text_front(ls);
        assert(clean_line(ls[0]));
        lemma_body_lacks_newline(ls[0]);
        let rest = ls.drop_first();
        assert forall|i: int| 0 <= i < rest.len() implies clean_line(#[trigger] rest[i]) by {
            assert(rest[i] == ls[i + 1]);
        }
        lemma_split_doc(rest);
        lemma_split_cons(line_body(ls[0]), doc_text(rest), '\n');
        assert(line_text(ls[0]) + doc_text(rest) =~= line_body(ls[0]) + seq!['\n'] + doc_text(rest));
        assert(seq![line_body(ls[0])] + rest.map_values(|l: LineModel| line_body(l)).push(
            Seq::<char>::empty(),
        ) =~= ls.map_values(|l: LineModel| line_body(l)).push(Seq::<char>::empty()));
    }
}

/// The body of a clean line reads back as the line.
pub proof fn lemma_parse_body(l: LineModel)
    requires
        clean_line(l),
    ensures
        parse_line(line_body(l)) == Some(l),
{
    let b = line_body(l);
    let j = join_with(l.0, '.');
    assert forall|k: int| 0 <= k < l.0.len() implies lacks(#[trigger] l.0[k], '=') by {
        assert(clean_segment(l.0[k]));
    }
    lemma_join_lacks(l.0, '.', '=');
    assert(l.0.len() >= 2 ==> j[0] == l.0[0][0] || l.0[0].len() == 0) by {
        if l.0.len() >= 2 {
            lemma_join_front(l.0, '.');
            if l.0[0].len() > 0 {
                assert(j[0] == l.0[0][0]);
            }
        }
    }
    assert(b.len() > 0 && !is_ws(b[0])) by {
        if j.len() > 0 {
            assert(b[0] == j[0]);
            if l.0.len() == 1 {
                assert(j == l.0[0]);
            } else {
                lemma_join_front(l.0, '.');
                if l.0[0].len() == 0 {
                    assert(j[0] == '.');
                }
            }
        } else {
            assert(b[0] == '=');
        }
    }
    assert(!is_ws(b.last())) by {
        if l.1.len() > 0 {
            assert(b.last() == l.1.last());
        } else {
            assert(b.last() == '=');
        }
    }
    assert(trim_start(b) == b);
    assert(trim_end(b) == b);
    assert(trim(b) == b);
    lemma_first_index(b, '=', j.len() as int);
    assert(b.take(j.len() as int) =~= j);
    assert(b.skip(j.len() + 1 as int) =~= l.1);
    assert forall|k: int| 0 <= k < l.0.len() implies lacks(#[trigger] l.0[k], '.') by {
        assert(clean_segment(l.0[k]));
    }
    lemma_split_join(l.0, '.');
}

pub proof fn lemma_parse_bodies(ls: Seq<LineModel>)
    requires
        forall|i: int| 0 <= i < ls.len() ==> clean_line(#[trigger] ls[i]),
    ensures
        parse_all(ls.map_values(|l: LineModel| line_body(l))) == Ok::<Seq<LineModel>, nat>(ls),
    decreases ls.len(),
{
    let bs = ls.map_values(|l: LineModel| line_body(l));
    if ls.len() == 0 {
        assert(bs.len() == 0);
        assert(ls =~= Seq::<LineModel>::empty());
    } else {
        let init = ls.drop_last();
        assert forall|i: int| 0 <= i < init.len() implies clean_line(#[trigger] init[i]) by {
            assert(init[i] == ls[i]);
        }
        lemma_parse_bodies(init);
        assert(bs.drop_last() =~= init.map_values(|l: LineModel| line_body(l)));
        assert(clean_line(ls.last()));
        lemma_parse_body(ls.last());
        assert(bs.last() == line_body(ls.last()));
        assert(init.push(ls.last()) =~= ls);
        assert(parse_all(bs) == Ok::<Seq<LineModel>, nat>(init.push(ls.last())));
    }
}

/// Reading back a written document: the text of clean lines reads back as
/// the same lines.
pub proof fn lemma_text_round_trip(ls: Seq<LineModel>)
    requires
        forall|i: int| 0 <= i < ls.len() ==> clean_line(#[trigger] ls[i]),
    ensures
        parse_all(raw_lines(doc_text(ls))) == Ok::<Seq<LineModel>, nat>(ls),
{
    lemma_split_doc(ls);
    let bs = ls.map_values(|l: LineModel| line_body(l));
    assert(bs.push(Seq::<char>::empty()).drop_last() =~= bs);
    lemma_parse_bodies(ls);
}

/// Reading back the text a value is written as: for a value that fits `s`
/// and whose lines are clean, decoding the text of its document with `s`
/// gives the value.
pub proof fn lemma_round_trip_text(v: Value, s: Shape)
    requires
        fits_doc(v, s),
        forall|i: int| 0 <= i < value_lines(v).len() ==> clean_line(#[trigger] value_lines(v)[i]),
    ensures
        parse_all(raw_lines(doc_text(value_lines(v)))) == Ok::<Seq<LineModel>, nat>(value_lines(v)),
        decode_spec(value_lines(v), 0, s) == Ok::<ValueModel, DeserializeError>(model(v)),
{
    lemma_text_round_trip(value_lines(v));
    lemma_round_trip(v, s);
}

/// The scalar texts of `v` in the order they are visited, each sequence
/// followed by its element count.
pub open spec fn leaf_texts(v: Value) -> Seq<Seq<char>>
    decreases v,
{
    match v {
        Value::Scalar(t) => seq![t@],
        Value::Sequence(items) => elements_texts(items@).push(dec(items@.len())),
        Value::Keyed(es) => entries_texts(es@),
    }
}

pub open spec fn elements_texts(items: Seq<Value>) -> Seq<Seq<char>>
    decreases items,
{
    if items.len() == 0 {
        seq![]
    } else {
        elements_texts(items.subrange(0, items.len() - 1)) + leaf_texts(items[items.len() - 1])
    }
}

pub open spec fn entries_texts(es: Seq<(String, Value)>) -> Seq<Seq<char>>
    decreases es,
{
    if es.len() == 0 {
        seq![]
    } else {
        entries_texts(es.subrange(0, es.len() - 1)) + leaf_texts(es[es.len() - 1].1)
    }
}

/// The value texts of lines, in order.
pub open spec fn line_values(ls: Seq<LineModel>) -> Seq<Seq<char>> {
    ls.map_values(|l: LineModel| l.1)
}

/// Scalars are written in the order they are visited, whatever the
/// nesting: the values of `v`'s lines, read in order, are its scalar texts
/// in visiting order, each sequence's element count right after its
/// elements.
pub proof fn lemma_values_in_order(v: Value)
    ensures
        line_values(value_lines(v)) == leaf_texts(v),
    decreases v,
{
    match v {
        Value::Scalar(t) => {
            assert(line_values(value_lines(v)) =~= seq![t@]);
        },
        Value::Sequence(items) => {
            assert(decreases_to!(v => v->Sequence_0));
            assert(decreases_to!(v->Sequence_0 => v->Sequence_0@));
            lemma_elements_values(items@);
            let el = elements_lines(items@);
            let tl = seq![(seq![length_label()], dec(items@.len()))];
            assert(line_values(el + tl) =~= line_values(el) + line_values(tl));
            assert(line_values(tl) =~= seq![dec(items@.len())]);
            assert(elements_texts(items@) + seq![dec(items@.len())] =~= elements_texts(items@).push(
                dec(items@.len()),
            ));
        },
        Value::Keyed(es) => {
            assert(decreases_to!(v => v->Keyed_0));
            assert(decreases_to!(v->Keyed_0 => v->Keyed_0@));
            lemma_entries_values(es@);
        },
    }
}

pub proof fn lemma_elements_values(items: Seq<Value>)
    ensures
        line_values(elements_lines(items)) == elements_texts(items),
    decreases items,
{
    if items.len() > 0 {
        let init = items.subrange(0, items.len() - 1);
        let last = items[items.len() - 1];
        lemma_elements_values(init);
        lemma_values_in_order(last);
        let a = elements_lines(init);
        let b = prefixed(seq![dec((items.len() - 1) as nat)], value_lines(last));
        assert(line_values(a + b) =~= line_values(a) + line_values(b));
        assert(line_values(b) =~= line_values(value_lines(last)));
    } else {
        assert(line_values(elements_lines(items)) =~= Seq::<Seq<char>>::empty());
    }
}

pub proof fn lemma_entries_values(es: Seq<(String, Value)>)
    ensures
        line_values(entries_lines(es)) == entries_texts(es),
    decreases es,
{
    if es.len() > 0 {
        let init = es.subrange(0, es.len() - 1);
        let last = es[es.len() - 1];
        lemma_entries_values(init);
        assert(decreases_to!(es => es[es.len() - 1]));
        assert(decreases_to!(es[es.len() - 1] => es[es.len() - 1].1));
        lemma_values_in_order(last.1);
        let a = entries_lines(init);
        let b = prefixed(seq![last.0@], value_lines(last.1));
        assert(line_values(a + b) =~= line_values(a) + line_values(b));
        assert(line_values(b) =~= line_values(value_lines(last.1)));
    } else {
        assert(line_values(entries_lines(es)) =~= Seq::<Seq<char>>::empty());
    }
}
} // verus!
