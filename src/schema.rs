//! Reading a value of a requested shape back from the scopes of a document.
use vstd::prelude::*;

use crate::de::{
    committed, label_at, lemma_run_end_advances, lemma_run_end_bounds, outer_of, prefix_at, run_end, starts_with, Commons,
    Deserializer, LineAccess,
};
use crate::error::DeserializeError;
use crate::text::{count_text, dec};
use crate::value::{length_label, type_label, LineModel, Shape, Value};

verus! {

/// The mathematical content of a `Value`.
pub enum ValueModel {
    Scalar(Seq<char>),
    Sequence(Seq<ValueModel>),
    Keyed(Seq<(Seq<char>, ValueModel)>),
}

pub open spec fn model(v: Value) -> ValueModel
    decreases v,
{
    match v {
        Value::Scalar(s) => ValueModel::Scalar(s@),
        Value::Sequence(items) => ValueModel::Sequence(models(items@)),
        Value::Keyed(entries) => ValueModel::Keyed(entry_models(entries@)),
    }
}

pub open spec fn models(items: Seq<Value>) -> Seq<ValueModel>
    decreases items,
{
    if items.len() == 0 {
        seq![]
    } else {
        models(items.subrange(0, items.len() - 1)).push(model(items[items.len() - 1]))
    }
}

pub open spec fn entry_models(entries: Seq<(String, Value)>) -> Seq<(Seq<char>, ValueModel)>
    decreases entries,
{
    if entries.len() == 0 {
        seq![]
    } else {
        entry_models(entries.subrange(0, entries.len() - 1)).push(
            (entries[entries.len() - 1].0@, model(entries[entries.len() - 1].1)),
        )
    }
}

/// `a` put in front of a successful result; an error stays as it is.
pub open spec fn prepend<X>(a: Seq<X>, r: Result<Seq<X>, DeserializeError>) -> Result<
    Seq<X>,
    DeserializeError,
> {
    match r {
        Ok(rest) => Ok(a + rest),
        Err(e) => Err(e),
    }
}

/// Where a scope iteration at `depth` looks next: at `pos` before its first
/// scope, past the run at `pos` after it.
pub open spec fn step_start(doc: Seq<LineModel>, pos: nat, first: bool, depth: nat) -> nat {
    if first {
        pos
    } else {
        run_end(doc, pos, depth, committed(doc, pos, depth, None))
    }
}

/// A scope begins at `start` inside the enclosing prefix `outer`.
pub open spec fn opens(doc: Seq<LineModel>, start: nat, outer: Seq<Seq<char>>) -> bool {
    start < doc.len() && starts_with(doc[start as int].0, outer)
}

/// What reading the run at `pos` and `depth` as `shape` gives: a scalar is
/// a run of exactly one line whose path ends at the run's label; anything
/// else is read from the scopes one level deeper.
pub open spec fn decode_scope_spec(doc: Seq<LineModel>, pos: nat, depth: nat, shape: Shape) -> Result<
    ValueModel,
    DeserializeError,
>
    decreases shape, 3nat, 0int,
{
    match shape {
        Shape::Scalar => if pos < doc.len() && doc[pos as int].0.len() == depth + 1 && run_end(
            doc,
            pos,
            depth,
            prefix_at(doc[pos as int].0, depth),
        ) == pos + 1 {
            Ok(ValueModel::Scalar(doc[pos as int].1))
        } else {
            Err(DeserializeError::ShapeMismatch(pos as usize))
        },
        _ => decode_entries_spec(doc, pos, depth + 1, outer_of(doc, pos, depth + 1), shape),
    }
}

/// What reading the scopes at `depth` from `pos` inside `outer` as `shape`
/// gives.
pub open spec fn decode_entries_spec(
    doc: Seq<LineModel>,
    pos: nat,
    depth: nat,
    outer: Seq<Seq<char>>,
    shape: Shape,
) -> Result<ValueModel, DeserializeError>
    decreases shape, 2nat, 0int,
{
    match shape {
        Shape::Scalar => Err(DeserializeError::UnsupportedConstruct),
        Shape::Keyed(_) => match keyed_spec(doc, pos, true, depth, outer, shape, 0) {
            Ok(es) => Ok(ValueModel::Keyed(es)),
            Err(e) => Err(e),
        },
        Shape::Sequence(_) => match seq_spec(doc, pos, true, depth, outer, shape, 0) {
            Ok(xs) => Ok(ValueModel::Sequence(xs)),
            Err(e) => Err(e),
        },
        Shape::Variant(vs) => if !opens(doc, pos, outer) {
            Err(DeserializeError::Eof(pos as usize))
        } else if label_at(doc, pos, depth, None) != Some(type_label()) || doc[pos as int].0.len()
            != depth + 1 || run_end(doc, pos, depth, prefix_at(doc[pos as int].0, depth)) != pos
            + 1 {
            Err(DeserializeError::ShapeMismatch(pos as usize))
        } else {
            match variant_index(doc[pos as int].1, vs@.len()) {
                None => Err(DeserializeError::ShapeMismatch(pos as usize)),
                Some(k) => {
                    proof {
                        lemma_variant_index_bound(doc[pos as int].1, vs@.len());
                        vstd::std_specs::vec::axiom_vec_index_decreases(vs, k as int);
                        assert(decreases_to!(shape => shape->Variant_0));
                        assert(decreases_to!(vs => vs[k as int]));
                    }
                    if vs@[k as int] is Keyed {
                        match keyed_spec(doc, pos, false, depth, outer, vs@[k as int], 0) {
                            Ok(es) => Ok(
                                ValueModel::Keyed(
                                    seq![(type_label(), ValueModel::Scalar(doc[pos as int].1))]
                                        + es,
                                ),
                            ),
                            Err(e) => Err(e),
                        }
                    } else {
                        Err(DeserializeError::UnsupportedConstruct)
                    }
                },
            }
        },
    }
}

/// The first index below `n` whose decimal text is `t`.
pub open spec fn variant_index(t: Seq<char>, n: nat) -> Option<nat>
    decreases n,
{
    if n == 0 {
        None
    } else {
        match variant_index(t, (n - 1) as nat) {
            Some(k) => Some(k),
            None => if dec((n - 1) as nat) == t {
                Some((n - 1) as nat)
            } else {
                None
            },
        }
    }
}

pub proof fn lemma_variant_index_bound(t: Seq<char>, n: nat)
    ensures
        variant_index(t, n) matches Some(k) ==> k < n,
    decreases n,
{
    if n > 0 {
        lemma_variant_index_bound(t, (n - 1) as nat);
    }
}

pub proof fn lemma_variant_index_stable(t: Seq<char>, m: nat, n: nat)
    requires
        m <= n,
        variant_index(t, m) is Some,
    ensures
        variant_index(t, n) == variant_index(t, m),
    decreases n - m,
{
    if m < n {
        lemma_variant_index_stable(t, m, (n - 1) as nat);
    }
}

/// The fields of a keyed shape from field `k` on, each read from the next
/// scope, which must carry the field's name.
pub open spec fn keyed_spec(
    doc: Seq<LineModel>,
    pos: nat,
    first: bool,
    depth: nat,
    outer: Seq<Seq<char>>,
    shape: Shape,
    k: nat,
) -> Result<Seq<(Seq<char>, ValueModel)>, DeserializeError>
    decreases shape, 1nat, (if shape is Keyed && k < shape->Keyed_0@.len() {
        shape->Keyed_0@.len() - k
    } else {
        0
    }),
{
    match shape {
        Shape::Keyed(fields) => if k >= fields@.len() {
            Ok(seq![])
        } else {
            let start = step_start(doc, pos, first, depth);
            if !opens(doc, start, outer) {
                Err(DeserializeError::Eof(start as usize))
            } else if label_at(doc, start, depth, None) != Some(fields@[k as int].0@) {
                Err(DeserializeError::ShapeMismatch(start as usize))
            } else {
                proof {
                    vstd::std_specs::vec::axiom_vec_index_decreases(fields, k as int);
                    assert(decreases_to!(shape => shape->Keyed_0));
                    assert(decreases_to!(fields => fields[k as int]));
                    assert(decreases_to!(fields[k as int] => fields[k as int].1));
                }
                match decode_scope_spec(doc, start, depth, fields@[k as int].1) {
                    Err(e) => Err(e),
                    Ok(m) => prepend(
                        seq![(fields@[k as int].0@, m)],
                        keyed_spec(doc, start, false, depth, outer, shape, k + 1),
                    ),
                }
            }
        },
        _ => Ok(seq![]),
    }
}

/// The elements of a sequence shape from element `i` on: scopes labelled
/// `i`, `i + 1`, ... until the scope `length`, whose line must hold the
/// number of elements read and be the scope's only line. No scope at all is
/// the empty sequence.
pub open spec fn seq_spec(
    doc: Seq<LineModel>,
    pos: nat,
    first: bool,
    depth: nat,
    outer: Seq<Seq<char>>,
    shape: Shape,
    i: nat,
) -> Result<Seq<ValueModel>, DeserializeError>
    decreases shape, 1nat, doc.len() + 1 - step_start(doc, pos, first, depth),
{
    match shape {
        Shape::Sequence(elem) => {
            let start = step_start(doc, pos, first, depth);
            if !opens(doc, start, outer) {
                if first {
                    Ok(seq![])
                } else {
                    Err(DeserializeError::Eof(start as usize))
                }
            } else {
                let lab = label_at(doc, start, depth, None);
                if lab == Some(length_label()) {
                    if doc[start as int].0.len() == depth + 1 && doc[start as int].1 == dec(i)
                        && run_end(doc, start, depth, prefix_at(doc[start as int].0, depth))
                        == start + 1 {
                        Ok(seq![])
                    } else {
                        Err(DeserializeError::ShapeMismatch(start as usize))
                    }
                } else if lab == Some(dec(i)) {
                    proof {
                        assert(decreases_to!(shape => shape->Sequence_0));
                        lemma_run_end_advances(doc, start, depth);
                    }
                    match decode_scope_spec(doc, start, depth, *elem) {
                        Err(e) => Err(e),
                        Ok(m) => prepend(
                            seq![m],
                            seq_spec(doc, start, false, depth, outer, shape, i + 1),
                        ),
                    }
                } else {
                    Err(DeserializeError::ShapeMismatch(start as usize))
                }
            }
        },
        _ => Ok(seq![]),
    }
}

/// What reading the document from line `pos` as `shape` gives.
pub open spec fn decode_spec(doc: Seq<LineModel>, pos: nat, shape: Shape) -> Result<
    ValueModel,
    DeserializeError,
> {
    decode_entries_spec(doc, pos, 0, outer_of(doc, pos, 0), shape)
}

pub open spec fn result_model(r: Result<Value, DeserializeError>) -> Result<
    ValueModel,
    DeserializeError,
> {
    match r {
        Ok(v) => Ok(model(v)),
        Err(e) => Err(e),
    }
}

pub proof fn lemma_models_push(items: Seq<Value>, v: Value)
    ensures
        models(items.push(v)) == models(items).push(model(v)),
{
    assert(items.push(v).subrange(0, items.len() as int) =~= items);
}

pub proof fn lemma_entry_models_push(entries: Seq<(String, Value)>, e: (String, Value))
    ensures
        entry_models(entries.push(e)) == entry_models(entries).push((e.0@, model(e.1))),
{
    assert(entries.push(e).subrange(0, entries.len() as int) =~= entries);
}

pub proof fn lemma_prepend_step<X>(a: Seq<X>, x: X, r: Result<Seq<X>, DeserializeError>)
    ensures
        prepend(a, prepend(seq![x], r)) == prepend(a.push(x), r),
{
    if let Ok(rest) = r {
        assert(a + (seq![x] + rest) =~= a.push(x) + rest);
    }
}

pub proof fn lemma_entry_models_concat(a: Seq<(String, Value)>, b: Seq<(String, Value)>)
    ensures
        entry_models(a + b) == entry_models(a) + entry_models(b),
    decreases b.len(),
{
    if b.len() == 0 {
        assert(a + b =~= a);
        assert(entry_models(a) + entry_models(b) =~= entry_models(a));
    } else {
        let init = b.subrange(0, b.len() - 1);
        lemma_entry_models_concat(a, init);
        assert(a + b =~= (a + init).push(b.last()));
        lemma_entry_models_push(a + init, b.last());
        lemma_entry_models_push(init, b.last());
        assert(init.push(b.last()) =~= b);
        assert(entry_models(a) + entry_models(b) =~= (entry_models(a) + entry_models(init)).push(
            (b.last().0@, model(b.last().1)),
        ));
    }
}

/// Whether a label read from a scope is `name`.
fn label_is(lab: &Option<String>, name: &String) -> (r: bool)
    ensures
        r == (match lab {
            Some(l) => l@ == name@,
            None => false,
        }),
{
    match lab {
        Some(l) => *l == *name,
        None => false,
    }
}

/// Reads the run `scope` as `shape`.
pub fn decode_scope(de: &Deserializer, scope: &LineAccess, shape: &Shape) -> (r: Result<
    Value,
    DeserializeError,
>)
    requires
        scope.common() is None,
        scope.pos() < de.doc().len(),
        scope.depth() < de.doc()[scope.pos() as int].0.len(),
    ensures
        result_model(r) == decode_scope_spec(de.doc(), scope.pos(), scope.depth(), *shape),
    decreases shape, 3nat, 0int,
{
    let pos = scope.position();
    let depth = scope.level();
    match shape {
        Shape::Scalar => {
            let line = de.line(pos);
            if line.path.len() - 1 != depth {
                return Err(DeserializeError::ShapeMismatch(pos));
            }
            let n = de.len();
            let mut run = LineAccess::new(pos, depth);
            run.clear_state(de);
            proof {
                lemma_run_end_advances(de.doc(), pos as nat, depth as nat);
            }
            if run.position() == pos + 1 {
                Ok(Value::Scalar(line.value.clone()))
            } else {
                Err(DeserializeError::ShapeMismatch(pos))
            }
        },
        _ => {
            let line = de.line(pos);
            let plen = line.path.len();
            assert(plen == de.doc()[pos as int].0.len());
            let mut subs = scope.subdivide(de);
            decode_entries(de, &mut subs, shape)
        },
    }
}

/// Reads the scopes of `subs` as `shape`.
pub fn decode_entries(de: &Deserializer, subs: &mut Commons, shape: &Shape) -> (r: Result<
    Value,
    DeserializeError,
>)
    requires
        old(subs).current().common() is None,
        old(subs).is_first(),
        old(subs).current().pos() <= de.doc().len(),
    ensures
        result_model(r) == decode_entries_spec(
            de.doc(),
            old(subs).current().pos(),
            old(subs).current().depth(),
            old(subs).outer(),
            *shape,
        ),
    decreases shape, 2nat, 0int,
{
    let ghost doc = de.doc();
    let ghost pos0 = subs.current().pos();
    let ghost d = subs.current().depth();
    let ghost outer = subs.outer();
    match shape {
        Shape::Scalar => Err(DeserializeError::UnsupportedConstruct),
        Shape::Keyed(_) => match decode_fields(de, subs, shape) {
            Ok(es) => Ok(Value::Keyed(es)),
            Err(e) => Err(e),
        },
        Shape::Variant(variants) => decode_variant(de, subs, shape, variants),
        Shape::Sequence(elem) => {
            let mut items: Vec<Value> = Vec::new();
            let mut i: usize = 0;
            let n = de.len();
            assert(models(items@) =~= Seq::<ValueModel>::empty());
            assert(prepend(Seq::<ValueModel>::empty(), seq_spec(doc, pos0, true, d, outer, *shape, 0)) == seq_spec(doc, pos0, true, d, outer, *shape, 0)) by {
                if let Ok(rest) = seq_spec(doc, pos0, true, d, outer, *shape, 0) {
                    assert(Seq::<ValueModel>::empty() + rest =~= rest);
                }
            }
            loop
                invariant
                    doc == de.doc(),
                    pos0 == old(subs).current().pos(),
                    d == old(subs).current().depth(),
                    outer == old(subs).outer(),
                    *shape == Shape::Sequence(*elem),
                    n == doc.len(),
                    (i == 0) == subs.is_first(),
                    i == items@.len(),
                    subs.current().common() is None,
                    subs.current().depth() == d,
                    subs.outer() == outer,
                    subs.current().pos() <= doc.len(),
                    i <= step_start(doc, subs.current().pos(), subs.is_first(), d),
                    step_start(doc, subs.current().pos(), subs.is_first(), d) <= doc.len(),
                    seq_spec(doc, pos0, true, d, outer, *shape, 0) == prepend(
                        models(items@),
                        seq_spec(doc, subs.current().pos(), subs.is_first(), d, outer, *shape, i as nat),
                    ),
                decreases doc.len() + 1 - step_start(doc, subs.current().pos(), subs.is_first(), d),
            {
                let ghost cur = subs.current().pos();
                let ghost first = subs.is_first();
                match subs.next(de) {
                    None => {
                        if i == 0 {
                            proof {
                                assert(models(items@) + seq![] =~= models(items@));
                            }
                            return Ok(Value::Sequence(items));
                        }
                        return Err(DeserializeError::Eof(subs.position()));
                    },
                    Some(s) => {
                        let lab = s.scope_peek(de);
                        let length = String::from_str("length");
                        let index = count_text(i);
                        proof {
                            reveal_strlit("length");
                            assert(length@ =~= length_label());
                        }
                        if label_is(&lab, &length) {
                            let line = de.line(s.position());
                            let mut run = LineAccess::new(s.position(), s.level());
                            run.clear_state(de);
                            proof {
                                lemma_run_end_advances(doc, s.pos(), d);
                            }
                            if line.path.len() - 1 == s.level() && line.value == index
                                && run.position() - 1 == s.position() {
                                proof {
                                    assert(seq_spec(doc, cur, first, d, outer, *shape, i as nat)
                                        == Ok::<Seq<ValueModel>, DeserializeError>(seq![]));
                                    assert(models(items@) + seq![] =~= models(items@));
                                }
                                return Ok(Value::Sequence(items));
                            }
                            return Err(DeserializeError::ShapeMismatch(s.position()));
                        }
                        if !label_is(&lab, &index) {
                            return Err(DeserializeError::ShapeMismatch(s.position()));
                        }
                        let ghost start = s.pos();
                        proof {
                            assert(decreases_to!(*shape => (*shape)->Sequence_0));
                            lemma_run_end_advances(doc, start, d);
                        }
                        let res = decode_scope(de, &s, &**elem);
                        match res {
                            Err(e) => {
                                return Err(e);
                            },
                            Ok(v) => {
                                let ghost before = items@;
                                proof {
                                    lemma_models_push(before, v);
                                    lemma_prepend_step(
                                        models(before),
                                        model(v),
                                        seq_spec(doc, start, false, d, outer, *shape, (i + 1) as nat),
                                    );
                                }
                                items.push(v);
                            },
                        }
                    },
                }
                i = i + 1;
            }
        },
    }
}

/// Reads the fields of the keyed shape `shape` from the scopes of `subs`,
/// each from the next scope, which must carry the field's name.
pub fn decode_fields(de: &Deserializer, subs: &mut Commons, shape: &Shape) -> (r: Result<
    Vec<(String, Value)>,
    DeserializeError,
>)
    requires
        shape is Keyed,
        old(subs).current().common() is None,
        old(subs).current().pos() <= de.doc().len(),
    ensures
        ({
            let spec = keyed_spec(
                de.doc(),
                old(subs).current().pos(),
                old(subs).is_first(),
                old(subs).current().depth(),
                old(subs).outer(),
                *shape,
                0,
            );
            match r {
                Ok(es) => spec == Ok::<Seq<(Seq<char>, ValueModel)>, DeserializeError>(
                    entry_models(es@),
                ),
                Err(e) => spec == Err::<Seq<(Seq<char>, ValueModel)>, DeserializeError>(e),
            }
        }),
    decreases shape, 1nat, 0int,
{
    let ghost doc = de.doc();
    let ghost pos0 = subs.current().pos();
    let ghost first0 = subs.is_first();
    let ghost d = subs.current().depth();
    let ghost outer = subs.outer();
    let fields = match shape {
        Shape::Keyed(fields) => fields,
        _ => {
            return Err(DeserializeError::UnsupportedConstruct);
        },
    };
    let mut entries: Vec<(String, Value)> = Vec::new();
    let mut k: usize = 0;
    assert(entry_models(entries@) =~= Seq::<(Seq<char>, ValueModel)>::empty());
    assert(prepend(Seq::<(Seq<char>, ValueModel)>::empty(), keyed_spec(doc, pos0, first0, d, outer, *shape, 0)) == keyed_spec(doc, pos0, first0, d, outer, *shape, 0)) by {
        if let Ok(rest) = keyed_spec(doc, pos0, first0, d, outer, *shape, 0) {
            assert(Seq::<(Seq<char>, ValueModel)>::empty() + rest =~= rest);
        }
    }
    while k < fields.len()
        invariant
            doc == de.doc(),
            pos0 == old(subs).current().pos(),
            first0 == old(subs).is_first(),
            d == old(subs).current().depth(),
            outer == old(subs).outer(),
            *shape == Shape::Keyed(*fields),
            k <= fields@.len(),
            subs.current().common() is None,
            subs.current().depth() == d,
            subs.outer() == outer,
            subs.current().pos() <= doc.len(),
            keyed_spec(doc, pos0, first0, d, outer, *shape, 0) == prepend(
                entry_models(entries@),
                keyed_spec(doc, subs.current().pos(), subs.is_first(), d, outer, *shape, k as nat),
            ),
        decreases fields@.len() - k,
    {
        let ghost cur = subs.current().pos();
        let ghost first = subs.is_first();
        proof {
            lemma_run_end_bounds(doc, cur, d, committed(doc, cur, d, None));
        }
        match subs.next(de) {
            None => {
                return Err(DeserializeError::Eof(subs.position()));
            },
            Some(s) => {
                let lab = s.scope_peek(de);
                if !label_is(&lab, &fields[k].0) {
                    return Err(DeserializeError::ShapeMismatch(s.position()));
                }
                proof {
                    vstd::std_specs::vec::axiom_vec_index_decreases(*fields, k as int);
                    assert(decreases_to!(*shape => (*shape)->Keyed_0));
                    assert(decreases_to!(*fields => fields[k as int]));
                    assert(decreases_to!(fields[k as int] => fields[k as int].1));
                }
                let res = decode_scope(de, &s, &fields[k].1);
                match res {
                    Err(e) => {
                        return Err(e);
                    },
                    Ok(v) => {
                        let ghost m = model(v);
                        let ghost before = entries@;
                        let name = fields[k].0.clone();
                        proof {
                            lemma_entry_models_push(before, (name, v));
                            lemma_prepend_step(
                                entry_models(before),
                                (name@, m),
                                keyed_spec(doc, s.pos(), false, d, outer, *shape, (k + 1) as nat),
                            );
                        }
                        entries.push((name, v));
                    },
                }
            },
        }
        k = k + 1;
    }
    proof {
        if let Ok(rest) = keyed_spec(doc, subs.current().pos(), subs.is_first(), d, outer, *shape, k as nat) {
            assert(entry_models(entries@) + rest =~= entry_models(entries@));
        }
    }
    Ok(entries)
}

/// Reads a tagged variant from the scopes of `subs`: the first scope is the
/// one-line `type` entry, whose text is the index of a variant of `shape`;
/// that variant's keyed fields follow.
pub fn decode_variant(de: &Deserializer, subs: &mut Commons, shape: &Shape, variants: &Vec<Shape>) -> (r: Result<
    Value,
    DeserializeError,
>)
    requires
        *shape == Shape::Variant(*variants),
        old(subs).current().common() is None,
        old(subs).is_first(),
        old(subs).current().pos() <= de.doc().len(),
    ensures
        result_model(r) == decode_entries_spec(
            de.doc(),
            old(subs).current().pos(),
            old(subs).current().depth(),
            old(subs).outer(),
            *shape,
        ),
    decreases shape, 1nat, 1int,
{
    let ghost doc = de.doc();
    let ghost pos0 = subs.current().pos();
    let ghost d = subs.current().depth();
    let s = match subs.next(de) {
        None => {
            return Err(DeserializeError::Eof(subs.position()));
        },
        Some(s) => s,
    };
    let lab = s.scope_peek(de);
    let ty = String::from_str("type");
    proof {
        reveal_strlit("type");
        assert(ty@ =~= type_label());
    }
    if !label_is(&lab, &ty) {
        return Err(DeserializeError::ShapeMismatch(s.position()));
    }
    let spos = s.position();
    let line = de.line(spos);
    if line.path.len() - 1 != s.level() {
        return Err(DeserializeError::ShapeMismatch(spos));
    }
    let mut run = LineAccess::new(spos, s.level());
    run.clear_state(de);
    proof {
        lemma_run_end_advances(doc, spos as nat, d);
    }
    if run.position() != spos + 1 {
        return Err(DeserializeError::ShapeMismatch(spos));
    }
    let ghost t = line.value@;
    let n = variants.len();
    let mut k: usize = 0;
    let mut found = false;
    while !found && k < n
        invariant
            k <= n,
            n == variants@.len(),
            t == line.value@,
            !found ==> variant_index(t, k as nat) is None,
            found ==> k < n && variant_index(t, (k + 1) as nat) == Some(k as nat),
        decreases n - k + (if found { 0int } else { 1int }),
    {
        let txt = count_text(k);
        if txt == line.value {
            found = true;
        } else {
            k = k + 1;
        }
    }
    if !found {
        return Err(DeserializeError::ShapeMismatch(spos));
    }
    proof {
        lemma_variant_index_stable(t, (k + 1) as nat, n as nat);
        vstd::std_specs::vec::axiom_vec_index_decreases(*variants, k as int);
        assert(decreases_to!(*shape => (*shape)->Variant_0));
        assert(decreases_to!(*variants => variants[k as int]));
    }
    let chosen = &variants[k];
    if !matches!(chosen, Shape::Keyed(_)) {
        return Err(DeserializeError::UnsupportedConstruct);
    }
    match decode_fields(de, subs, chosen) {
        Err(e) => Err(e),
        Ok(mut es) => {
            let tag = (ty, Value::Scalar(line.value.clone()));
            let mut all: Vec<(String, Value)> = Vec::new();
            all.push(tag);
            let ghost head = all@;
            let ghost tail = es@;
            all.append(&mut es);
            proof {
                lemma_entry_models_concat(head, tail);
                lemma_entry_models_push(Seq::<(String, Value)>::empty(), tag);
                assert(Seq::<(String, Value)>::empty().push(tag) =~= head);
                assert(entry_models(Seq::<(String, Value)>::empty()) =~= Seq::<(Seq<char>, ValueModel)>::empty());
                assert(Seq::<(Seq<char>, ValueModel)>::empty().push((tag.0@, model(tag.1))) =~= seq![
                    (type_label(), ValueModel::Scalar(t)),
                ]);
            }
            Ok(Value::Keyed(all))
        },
    }
}

/// Reads the document from the cursor on as `shape`.
pub fn decode(de: &Deserializer, shape: &Shape) -> (r: Result<Value, DeserializeError>)
    requires
        de.idx() <= de.doc().len(),
    ensures
        result_model(r) == decode_spec(de.doc(), de.idx(), *shape),
{
    let mut subs = de.commons(0);
    decode_entries(de, &mut subs, shape)
}


/// Reads the text `input` as a document and the document as `shape`; a line
/// without `=` fails the whole read.
pub fn from_text(input: &str, shape: &Shape) -> (r: Result<Value, DeserializeError>)
    ensures
        match crate::de::parse_all(crate::de::raw_lines(input@)) {
            Ok(doc) => result_model(r) == decode_spec(doc, 0, *shape),
            Err(k) => r is Err && r->Err_0 is MalformedLine && r->Err_0->MalformedLine_0 == k,
        },
{
    match Deserializer::new(input) {
        Ok(de) => decode(&de, shape),
        Err(e) => Err(e),
    }
}

/// A tagged variant: a keyed value whose first entry, `type`, holds the
/// variant's index, followed by the variant's own fields.
pub fn variant(index: usize, fields: Vec<(String, Value)>) -> (r: Value)
    ensures
        model(r) == ValueModel::Keyed(
            seq![(crate::value::type_label(), ValueModel::Scalar(dec(index as nat)))]
                + entry_models(fields@),
        ),
{
    let mut entries: Vec<(String, Value)> = Vec::new();
    let tag = (String::from_str("type"), Value::Scalar(count_text(index)));
    proof {
        reveal_strlit("type");
        assert(tag.0@ =~= crate::value::type_label());
    }
    let ghost head = seq![(crate::value::type_label(), ValueModel::Scalar(dec(index as nat)))];
    proof {
        lemma_entry_models_push(entries@, tag);
        assert(entries@.push(tag) =~= seq![tag]);
        assert(entry_models(Seq::<(String, Value)>::empty()) =~= Seq::<(Seq<char>, ValueModel)>::empty());
    }
    entries.push(tag);
    assert(entry_models(entries@) =~= head);
    let mut rest = fields;
    let ghost tail = rest@;
    let ghost first = entries@;
    entries.append(&mut rest);
    proof {
        lemma_entry_models_concat(first, tail);
    }
    Value::Keyed(entries)
}
} // verus!
