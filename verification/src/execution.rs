//! The splitting engine and the execution engine: per-module semantics over
//! batches of messages, and the recursive walk of the execution tree.

use vstd::prelude::*;
use vstd::pervasive::unreached;

use crate::json::{
    get_path, lemma_get_set, lemma_get_path_wf, lemma_parse_ser, lemma_set_path_wf, lemma_set_same,
    lemma_sp_doc_wf, lemma_view_arr, lemma_view_obj, lemma_wf_arr_build, lemma_wf_arr_index,
    obj_lookup, ser_json, set_path, sp_doc, view_arr, view_obj, JsonValue, SpecJson,
};
use crate::dispatch::ScriptEngine;
use crate::opts::{JsonObj, Message, MessageInner, Payload, SpecMessage, SpecMessageInner};
use crate::playbook::{spec_name, Module, SpecModule};
use crate::tree::{lemma_view_children, view_children, view_tree, PbTree, SpecTree};
use crate::text::{dot_split, find_sub_from, split_dots, strs_view, to_chars};
use crate::text::strs_view as path_view;

verus! {

/// Why a run, or one of its messages, failed.
///
/// `InvalidJson` and `BadPath` are data errors raised by the splitting
/// engine; `RecursionLimit`, `NotImplemented` and `BadRules` are
/// configuration errors; `ScriptFailure` is a script-evaluation error
/// reported by a worker.
#[derive(Debug, Clone, Copy, PartialEq, Eq, Structural)]
pub enum PipelineError {
    InvalidJson,
    BadPath,
    RecursionLimit,
    NotImplemented,
    BadRules,
    ScriptFailure,
}

/// The documents a split produces: one per element of the array at `p`,
/// each with that array replaced by the singleton of the element.
pub open spec fn split_targets(doc: SpecJson, p: Seq<Seq<char>>) -> Option<Seq<SpecJson>> {
    match get_path(doc, p) {
        Some(t) => match t {
            SpecJson::Arr(es) => Some(
                Seq::new(es.len(), |i: int| set_path(doc, p, SpecJson::Arr(seq![es[i]]))),
            ),
            _ => None,
        },
        None => None,
    }
}

/// Split a structured document along the array at `p`.
pub fn split_value(doc: &JsonValue, path: &Vec<String>) -> (r: Result<
    Vec<JsonValue>,
    PipelineError,
>)
    ensures
        match r {
            Ok(out) => split_targets(doc@, path_view(path@)) == Some(view_arr(out@)),
            Err(e) => e == PipelineError::BadPath && split_targets(
                doc@,
                path_view(path@),
            ) is None,
        },
{
    let ghost p = path_view(path@);
    proof {
        assert(p.skip(0) =~= p);
    }
    match crate::json::get_at_path(doc, path, 0) {
        Some(target) => match target {
            JsonValue::Arr(elems) => {
                proof {
                    lemma_view_arr(elems@);
                }
                let ghost es = view_arr(elems@);
                let ghost want = Seq::new(
                    es.len(),
                    |i: int| set_path(doc@, p, SpecJson::Arr(seq![es[i]])),
                );
                let mut out: Vec<JsonValue> = Vec::new();
                let mut i: usize = 0;
                while i < elems.len()
                    invariant
                        i <= elems@.len(),
                        es.len() == elems@.len(),
                        p == path_view(path@),
                        p.skip(0) == p,
                        forall|k: int| 0 <= k < elems@.len() ==> es[k] == elems@[k]@,
                        get_path(doc@, p) == Some(SpecJson::Arr(es)),
                        want == Seq::new(
                            es.len(),
                            |n: int| set_path(doc@, p, SpecJson::Arr(seq![es[n]])),
                        ),
                        view_arr(out@).len() == i,
                        out@.len() == i,
                        forall|k: int| 0 <= k < i ==> view_arr(out@)[k] == want[k],
                    decreases elems@.len() - i,
                {
                    let el = elems[i].duplicate();
                    let mut single: Vec<JsonValue> = Vec::new();
                    single.push(el);
                    proof {
                        lemma_view_arr(single@);
                        assert(view_arr(single@) =~= seq![es[i as int]]);
                    }
                    let nd = crate::json::set_at_path(doc, path, 0, JsonValue::Arr(single));
                    let ghost out0 = out@;
                    out.push(nd);
                    i += 1;
                    proof {
                        lemma_view_arr(out0);
                        lemma_view_arr(out@);
                    }
                }
                proof {
                    lemma_view_arr(out@);
                    assert(view_arr(out@) =~= want);
                }
                Ok(out)
            },
            _ => Err(PipelineError::BadPath),
        },
        None => Err(PipelineError::BadPath),
    }
}

/// Result of splitting a serialized document along the array at `p`: zero
/// texts for an empty array, the input itself for a one-element array, and
/// one reserialized document per element otherwise.
pub open spec fn split_text(s: Seq<char>, p: Seq<Seq<char>>) -> Result<
    Seq<Seq<char>>,
    PipelineError,
> {
    match sp_doc(s) {
        None => Err(PipelineError::InvalidJson),
        Some(doc) => match get_path(doc, p) {
            Some(t) => match t {
                SpecJson::Arr(es) => if es.len() == 0 {
                    Ok(Seq::empty())
                } else if es.len() == 1 {
                    Ok(seq![s])
                } else {
                    Ok(
                        Seq::new(
                            es.len(),
                            |i: int| ser_json(set_path(doc, p, SpecJson::Arr(seq![es[i]]))),
                        ),
                    )
                },
                _ => Err(PipelineError::BadPath),
            },
            None => Err(PipelineError::BadPath),
        },
    }
}

/// Split a serialized document along the array at `path`.
pub fn json_split(json: &String, path: &Vec<String>) -> (r: Result<Vec<String>, PipelineError>)
    ensures
        match r {
            Ok(out) => split_text(json@, path_view(path@)) == Ok::<_, PipelineError>(
                strs_view(out@),
            ),
            Err(e) => split_text(json@, path_view(path@)) == Err::<Seq<Seq<char>>, _>(e),
        },
{
    let ghost p = path_view(path@);
    proof {
        assert(p.skip(0) =~= p);
    }
    let parsed = crate::json::parse_text(json.as_str());
    match parsed {
        None => Err(PipelineError::InvalidJson),
        Some(doc) => {
            match crate::json::get_at_path(&doc, path, 0) {
                Some(target) => match target {
                    JsonValue::Arr(elems) => {
                        proof {
                            lemma_view_arr(elems@);
                        }
                        let ghost es = view_arr(elems@);
                        if elems.len() == 0 {
                            let out: Vec<String> = Vec::new();
                            proof {
                                assert(strs_view(out@) =~= Seq::<Seq<char>>::empty());
                            }
                            Ok(out)
                        } else if elems.len() == 1 {
                            let mut out: Vec<String> = Vec::new();
                            out.push(json.clone());
                            proof {
                                assert(strs_view(out@) =~= seq![json@]);
                            }
                            Ok(out)
                        } else {
                            let ghost want = Seq::new(
                                es.len(),
                                |i: int| ser_json(set_path(doc@, p, SpecJson::Arr(seq![es[i]]))),
                            );
                            let mut out: Vec<String> = Vec::new();
                            let mut i: usize = 0;
                            while i < elems.len()
                                invariant
                                    i <= elems@.len(),
                                    es.len() == elems@.len(),
                                    p == path_view(path@),
                                    p.skip(0) == p,
                                    forall|k: int| 0 <= k < elems@.len() ==> es[k] == elems@[k]@,
                                    get_path(doc@, p) == Some(SpecJson::Arr(es)),
                                    want == Seq::new(
                                        es.len(),
                                        |n: int| ser_json(
                                            set_path(doc@, p, SpecJson::Arr(seq![es[n]])),
                                        ),
                                    ),
                                    out@.len() == i,
                                    forall|k: int| 0 <= k < i ==> out@[k]@ == want[k],
                                decreases elems@.len() - i,
                            {
                                let el = elems[i].duplicate();
                                let mut single: Vec<JsonValue> = Vec::new();
                                single.push(el);
                                proof {
                                    lemma_view_arr(single@);
                                    assert(view_arr(single@) =~= seq![es[i as int]]);
                                }
                                let nd = crate::json::set_at_path(
                                    &doc,
                                    path,
                                    0,
                                    JsonValue::Arr(single),
                                );
                                out.push(nd.to_text());
                                i += 1;
                            }
                            proof {
                                assert(strs_view(out@) =~= want);
                            }
                            Ok(out)
                        }
                    },
                    _ => Err(PipelineError::BadPath),
                },
                None => Err(PipelineError::BadPath),
            }
        },
    }
}

/// View of a batch of messages.
pub open spec fn msgs_view(ms: Seq<Message>) -> Seq<SpecMessage> {
    Seq::new(ms.len(), |i: int| ms[i]@)
}

/// A successful payload-side split of `m` along `p`: one output per split
/// text, each with `m`'s mediation map and date unchanged.
pub open spec fn payload_split_ok(m: SpecMessage, p: Seq<Seq<char>>, out: Seq<SpecMessage>) -> bool {
    match split_text(m.inner.payload, p) {
        Ok(texts) => out.len() == texts.len() && forall|i: int|
            0 <= i < texts.len() ==> out[i] == SpecMessage {
                inner: SpecMessageInner {
                    billingmediation: m.inner.billingmediation,
                    payload: texts[i],
                },
                date: m.date,
            },
        Err(_) => false,
    }
}

/// A successful mediation-map-side split of `m` along `p`: one output per
/// split document, each with `m`'s payload and date unchanged byte for byte.
pub open spec fn bm_split_ok(m: SpecMessage, p: Seq<Seq<char>>, out: Seq<SpecMessage>) -> bool {
    match split_targets(SpecJson::Obj(m.inner.billingmediation), p) {
        Some(docs) => out.len() == docs.len() && forall|i: int|
            0 <= i < docs.len() ==> docs[i] == SpecJson::Obj(out[i].inner.billingmediation)
                && out[i].inner.payload == m.inner.payload && out[i].date == m.date,
        None => false,
    }
}

/// Split the payload along `path`; the mediation map is shared unchanged
/// across all outputs.
pub fn split_payload(payload: &Payload, path: &Vec<String>, bm: &JsonObj, date: &String) -> (r:
    Result<Vec<Message>, PipelineError>)
    ensures
        match r {
            Ok(out) => payload_split_ok(
                SpecMessage {
                    inner: SpecMessageInner { billingmediation: view_obj(bm@), payload: payload@ },
                    date: date@,
                },
                path_view(path@),
                msgs_view(out@),
            ),
            Err(e) => split_text(payload@, path_view(path@)) == Err::<Seq<Seq<char>>, _>(e),
        },
{
    match json_split(payload, path) {
        Err(e) => Err(e),
        Ok(texts) => {
            let ghost tv = strs_view(texts@);
            let mut out: Vec<Message> = Vec::new();
            let mut i: usize = 0;
            while i < texts.len()
                invariant
                    i <= texts@.len(),
                    tv == strs_view(texts@),
                    out@.len() == i,
                    forall|k: int|
                        0 <= k < i ==> msgs_view(out@)[k] == (SpecMessage {
                            inner: SpecMessageInner {
                                billingmediation: view_obj(bm@),
                                payload: tv[k],
                            },
                            date: date@,
                        }),
                decreases texts@.len() - i,
            {
                let nbm = crate::json::dup_members(bm);
                let npay = texts[i].clone();
                let nd = date.clone();
                let ghost out0 = out@;
                out.push(Message { inner: MessageInner { billingmediation: nbm, payload: npay }, date: nd });
                i += 1;
                proof {
                    assert forall|k: int| 0 <= k < i implies msgs_view(out@)[k] == (SpecMessage {
                        inner: SpecMessageInner {
                            billingmediation: view_obj(bm@),
                            payload: tv[k],
                        },
                        date: date@,
                    }) by {
                        if k < i - 1 {
                            assert(out@[k] == out0[k]);
                            assert(msgs_view(out0)[k] == out0[k]@);
                        } else {
                            assert(out@[k]@ == (SpecMessage {
                                inner: SpecMessageInner {
                                    billingmediation: view_obj(nbm@),
                                    payload: npay@,
                                },
                                date: nd@,
                            }));
                        }
                    }
                }
            }
            proof {
                assert(msgs_view(out@).len() == tv.len());
            }
            Ok(out)
        },
    }
}

/// Split the mediation map along `path`; the payload is shared unchanged
/// across all outputs.
pub fn split_billingmediation(
    bm: &JsonObj,
    path: &Vec<String>,
    payload: &Payload,
    date: &String,
) -> (r: Result<Vec<Message>, PipelineError>)
    ensures
        match r {
            Ok(out) => bm_split_ok(
                SpecMessage {
                    inner: SpecMessageInner { billingmediation: view_obj(bm@), payload: payload@ },
                    date: date@,
                },
                path_view(path@),
                msgs_view(out@),
            ),
            Err(e) => e == PipelineError::BadPath && split_targets(
                SpecJson::Obj(view_obj(bm@)),
                path_view(path@),
            ) is None,
        },
{
    let ghost p = path_view(path@);
    let doc = JsonValue::Obj(crate::json::dup_members(bm));
    match split_value(&doc, path) {
        Err(e) => Err(e),
        Ok(docs) => {
            proof {
                lemma_view_arr(docs@);
            }
            let ghost targets = view_arr(docs@);
            let mut out: Vec<Message> = Vec::new();
            let mut i: usize = 0;
            while i < docs.len()
                invariant
                    i <= docs@.len(),
                    p == path_view(path@),
                    targets.len() == docs@.len(),
                    forall|k: int| 0 <= k < docs@.len() ==> targets[k] == docs@[k]@,
                    split_targets(SpecJson::Obj(view_obj(bm@)), p) == Some(targets),
                    out@.len() == i,
                    forall|k: int|
                        0 <= k < i ==> targets[k] == SpecJson::Obj(
                            msgs_view(out@)[k].inner.billingmediation,
                        ) && msgs_view(out@)[k].inner.payload == payload@ && msgs_view(
                            out@,
                        )[k].date == date@,
                decreases docs@.len() - i,
            {
                match &docs[i] {
                    JsonValue::Obj(ms2) => {
                        let inner = MessageInner {
                            billingmediation: crate::json::dup_members(ms2),
                            payload: payload.clone(),
                        };
                        out.push(Message { inner, date: date.clone() });
                    },
                    _ => {
                        proof {
                            lemma_split_target_obj(SpecJson::Obj(view_obj(bm@)), p, targets, i as int);
                        }
                        return unreached();
                    },
                }
                i += 1;
            }
            Ok(out)
        },
    }
}

/// Every document produced by splitting an object is itself an object.
proof fn lemma_split_target_obj(doc: SpecJson, p: Seq<Seq<char>>, targets: Seq<SpecJson>, i: int)
    requires
        doc is Obj,
        split_targets(doc, p) == Some(targets),
        0 <= i < targets.len(),
    ensures
        targets[i] is Obj,
{
    if p.len() == 0 {
        assert(get_path(doc, p) == Some(doc));
        assert(false);
    } else {
        let es = match get_path(doc, p) {
            Some(t) => t->Arr_0,
            None => Seq::empty(),
        };
        assert(targets[i] == set_path(doc, p, SpecJson::Arr(seq![es[i]])));
    }
}

/// Split one message along the dot-separated `array_path`. A path whose
/// first segment is `billingmediation` splits the mediation map on the
/// remaining segments; any other path splits the payload.
pub fn split_message(msg: &Message, array_path: &String) -> (r: Result<Vec<Message>, PipelineError>)
    ensures
        match r {
            Ok(out) => split_one(msg@, array_path@) == Ok::<_, PipelineError>(msgs_view(out@)),
            Err(e) => split_one(msg@, array_path@) == Err::<Seq<SpecMessage>, _>(e),
        },
{
    let ghost segs = dot_split(array_path@);
    let mut path = split_dots(array_path);
    let bm_name: String = String::from_str("billingmediation");
    if path[0] == bm_name {
        let _first = path.remove(0);
        proof {
            assert(path_view(path@) =~= segs.drop_first());
        }
        let r = split_billingmediation(
            &msg.inner.billingmediation,
            &path,
            &msg.inner.payload,
            &msg.date,
        );
        proof {
            let m = msg@;
            let whole = SpecMessage {
                inner: SpecMessageInner {
                    billingmediation: view_obj(msg.inner.billingmediation@),
                    payload: msg.inner.payload@,
                },
                date: msg.date@,
            };
            assert(whole =~= m);
            match &r {
                Ok(out) => {
                    let docs = split_targets(
                        SpecJson::Obj(m.inner.billingmediation),
                        segs.drop_first(),
                    ).unwrap();
                    let want = Seq::new(
                        docs.len(),
                        |i: int| SpecMessage {
                            inner: SpecMessageInner {
                                billingmediation: obj_members(docs[i]),
                                payload: m.inner.payload,
                            },
                            date: m.date,
                        },
                    );
                    assert forall|i: int| 0 <= i < docs.len() implies msgs_view(out@)[i]
                        == want[i] by {
                        assert(docs[i] == SpecJson::Obj(msgs_view(out@)[i].inner.billingmediation));
                        assert(obj_members(docs[i]) == msgs_view(out@)[i].inner.billingmediation);
                        assert(msgs_view(out@)[i] =~= want[i]);
                    }
                    assert(msgs_view(out@) =~= want);
                },
                Err(_) => {},
            }
        }
        r
    } else {
        let r = split_payload(&msg.inner.payload, &path, &msg.inner.billingmediation, &msg.date);
        proof {
            let m = msg@;
            let whole = SpecMessage {
                inner: SpecMessageInner {
                    billingmediation: view_obj(msg.inner.billingmediation@),
                    payload: msg.inner.payload@,
                },
                date: msg.date@,
            };
            assert(whole =~= m);
            match &r {
                Ok(out) => {
                    let texts = split_text(m.inner.payload, segs).unwrap();
                    let want = Seq::new(
                        texts.len(),
                        |i: int| SpecMessage {
                            inner: SpecMessageInner {
                                billingmediation: m.inner.billingmediation,
                                payload: texts[i],
                            },
                            date: m.date,
                        },
                    );
                    assert forall|i: int| 0 <= i < texts.len() implies msgs_view(out@)[i]
                        == want[i] by {
                        assert(msgs_view(out@)[i] =~= want[i]);
                    }
                    assert(msgs_view(out@) =~= want);
                },
                Err(_) => {},
            }
        }
        r
    }
}

/// The key whose mediation-map value routes a message after a Logic stage.
pub open spec fn route_key() -> Seq<char> {
    "route"@
}

/// The default route label.
pub open spec fn output_route() -> Seq<char> {
    "output"@
}

/// The route of a message: the raw contents of its mediation map's `route`
/// string, the serialization of a non-string `route` value, or `output`
/// when the key is absent.
pub open spec fn route_spec(m: SpecMessage) -> Seq<char> {
    match obj_lookup(m.inner.billingmediation, route_key()) {
        None => output_route(),
        Some(v) => match v {
            SpecJson::Str(raw) => raw,
            _ => ser_json(v),
        },
    }
}

/// The route label under which this message leaves a Logic stage.
pub fn route_of(msg: &Message) -> (r: String)
    ensures
        r@ == route_spec(msg@),
{
    let key: String = String::from_str("route");
    proof {
        lemma_view_obj(msg.inner.billingmediation@);
    }
    match crate::json::obj_find(&msg.inner.billingmediation, &key) {
        Some(i) => match &msg.inner.billingmediation[i].1 {
            JsonValue::Str(raw) => raw.clone(),
            other => other.to_text(),
        },
        None => {
            let r: String = String::from_str("output");
            r
        },
    }
}

/// Whether a message leaves under `label`.
pub open spec fn route_pred(label: Seq<char>) -> spec_fn(SpecMessage) -> bool {
    |m: SpecMessage| route_spec(m) == label
}

/// The subset of a batch that leaves under `label`, in batch order.
pub fn partition_by_route(batch: &Vec<Message>, label: &String) -> (r: Vec<Message>)
    ensures
        msgs_view(r@) == msgs_view(batch@).filter(route_pred(label@)),
{
    let ghost full = msgs_view(batch@);
    let ghost pred = route_pred(label@);
    let mut out: Vec<Message> = Vec::new();
    let mut i: usize = 0;
    while i < batch.len()
        invariant
            i <= batch@.len(),
            full == msgs_view(batch@),
            pred == route_pred(label@),
            msgs_view(out@) == full.subrange(0, i as int).filter(pred),
        decreases batch@.len() - i,
    {
        let ghost pre = full.subrange(0, i as int);
        let rt = route_of(&batch[i]);
        let ghost out0 = out@;
        if rt == *label {
            let d = batch[i].duplicate();
            out.push(d);
        }
        i += 1;
        proof {
            reveal_with_fuel(Seq::filter, 2);
            let cur = full.subrange(0, i as int);
            assert(cur =~= pre + seq![full[i - 1]]);
            Seq::filter_distributes_over_add(pre, seq![full[i - 1]], pred);
            assert(seq![full[i - 1]].drop_last() =~= Seq::<SpecMessage>::empty());
            if pred(full[i - 1]) {
                assert(seq![full[i - 1]].filter(pred) =~= seq![full[i - 1]]);
                assert(msgs_view(out@) =~= msgs_view(out0).push(full[i - 1]));
            } else {
                assert(seq![full[i - 1]].filter(pred) =~= Seq::<SpecMessage>::empty());
                assert(msgs_view(out@) =~= msgs_view(out0));
            }
            assert(msgs_view(out@) =~= cur.filter(pred));
        }
    }
    proof {
        assert(full.subrange(0, batch@.len() as int) =~= full);
    }
    out
}

/// The members of an object value (empty for any other value).
pub open spec fn obj_members(v: SpecJson) -> Seq<(Seq<char>, SpecJson)> {
    match v {
        SpecJson::Obj(ms) => ms,
        _ => Seq::empty(),
    }
}

/// What splitting one message along the dotted path `ap` yields.
pub open spec fn split_one(m: SpecMessage, ap: Seq<char>) -> Result<Seq<SpecMessage>, PipelineError> {
    let segs = dot_split(ap);
    if segs[0] == "billingmediation"@ {
        match split_targets(SpecJson::Obj(m.inner.billingmediation), segs.drop_first()) {
            Some(docs) => Ok(
                Seq::new(
                    docs.len(),
                    |i: int| SpecMessage {
                        inner: SpecMessageInner {
                            billingmediation: obj_members(docs[i]),
                            payload: m.inner.payload,
                        },
                        date: m.date,
                    },
                ),
            ),
            None => Err(PipelineError::BadPath),
        }
    } else {
        match split_text(m.inner.payload, segs) {
            Ok(texts) => Ok(
                Seq::new(
                    texts.len(),
                    |i: int| SpecMessage {
                        inner: SpecMessageInner {
                            billingmediation: m.inner.billingmediation,
                            payload: texts[i],
                        },
                        date: m.date,
                    },
                ),
            ),
            Err(e) => Err(e),
        }
    }
}

/// What splitting a whole batch yields: the concatenation of the splits of
/// its messages, or the first error.
pub open spec fn split_batch(input: Seq<SpecMessage>, ap: Seq<char>) -> Result<
    Seq<SpecMessage>,
    PipelineError,
>
    decreases input.len(),
{
    if input.len() == 0 {
        Ok(Seq::empty())
    } else {
        match split_one(input[0], ap) {
            Ok(first) => match split_batch(input.drop_first(), ap) {
                Ok(rest) => Ok(first + rest),
                Err(e) => Err(e),
            },
            Err(e) => Err(e),
        }
    }
}

/// Appending a message that splits cleanly extends a clean batch split.
pub proof fn lemma_split_batch_snoc_ok(
    s: Seq<SpecMessage>,
    m: SpecMessage,
    ap: Seq<char>,
    a: Seq<SpecMessage>,
    b: Seq<SpecMessage>,
)
    requires
        split_batch(s, ap) == Ok::<_, PipelineError>(a),
        split_one(m, ap) == Ok::<_, PipelineError>(b),
    ensures
        split_batch(s.push(m), ap) == Ok::<_, PipelineError>(a + b),
    decreases s.len(),
{
    if s.len() == 0 {
        assert(s.push(m)[0] == m);
        assert(s.push(m).drop_first() =~= Seq::<SpecMessage>::empty());
        assert(split_batch(s.push(m).drop_first(), ap) == Ok::<_, PipelineError>(Seq::<
            SpecMessage,
        >::empty()));
        assert(b + Seq::<SpecMessage>::empty() =~= b);
        assert(a =~= Seq::<SpecMessage>::empty());
        assert(a + b =~= b);
    } else {
        let first = match split_one(s[0], ap) {
            Ok(f) => f,
            Err(_) => Seq::empty(),
        };
        let rest = match split_batch(s.drop_first(), ap) {
            Ok(r) => r,
            Err(_) => Seq::empty(),
        };
        lemma_split_batch_snoc_ok(s.drop_first(), m, ap, rest, b);
        assert(s.push(m).drop_first() =~= s.drop_first().push(m));
        assert(s.push(m)[0] == s[0]);
        assert(first + (rest + b) =~= (first + rest) + b);
    }
}

/// A message that fails to split fails the whole batch from there on.
pub proof fn lemma_split_batch_snoc_err(
    s: Seq<SpecMessage>,
    m: SpecMessage,
    ap: Seq<char>,
    a: Seq<SpecMessage>,
    e: PipelineError,
)
    requires
        split_batch(s, ap) == Ok::<_, PipelineError>(a),
        split_one(m, ap) == Err::<Seq<SpecMessage>, _>(e),
    ensures
        split_batch(s.push(m), ap) == Err::<Seq<SpecMessage>, _>(e),
    decreases s.len(),
{
    if s.len() == 0 {
        assert(s.push(m)[0] == m);
    } else {
        let rest = match split_batch(s.drop_first(), ap) {
            Ok(r) => r,
            Err(_) => Seq::empty(),
        };
        lemma_split_batch_snoc_err(s.drop_first(), m, ap, rest, e);
        assert(s.push(m).drop_first() =~= s.drop_first().push(m));
        assert(s.push(m)[0] == s[0]);
    }
}

/// A failing prefix fails the whole batch.
pub proof fn lemma_split_batch_prefix_err(s: Seq<SpecMessage>, ap: Seq<char>, i: int, e: PipelineError)
    requires
        0 <= i <= s.len(),
        split_batch(s.take(i), ap) == Err::<Seq<SpecMessage>, _>(e),
    ensures
        split_batch(s, ap) == Err::<Seq<SpecMessage>, _>(e),
    decreases s.len(),
{
    assert(i > 0);
    assert(s.take(i)[0] == s[0]);
    match split_one(s[0], ap) {
        Err(_) => {},
        Ok(_) => {
            assert(s.take(i).drop_first() =~= s.drop_first().take(i - 1));
            lemma_split_batch_prefix_err(s.drop_first(), ap, i - 1, e);
        },
    }
}

/// A copy of a batch, message for message.
pub fn dup_batch(batch: &Vec<Message>) -> (r: Vec<Message>)
    ensures
        msgs_view(r@) == msgs_view(batch@),
{
    let mut r: Vec<Message> = Vec::new();
    let mut i: usize = 0;
    while i < batch.len()
        invariant
            i <= batch@.len(),
            r@.len() == i,
            forall|k: int| 0 <= k < i ==> r@[k]@ == batch@[k]@,
        decreases batch@.len() - i,
    {
        let d = batch[i].duplicate();
        r.push(d);
        i += 1;
    }
    proof {
        assert(msgs_view(r@) =~= msgs_view(batch@));
    }
    r
}

/// Split every message of a batch along `array_path`, in order.
pub fn split_batch_exec(batch: &Vec<Message>, array_path: &String) -> (r: Result<
    Vec<Message>,
    PipelineError,
>)
    ensures
        match r {
            Ok(out) => split_batch(msgs_view(batch@), array_path@) == Ok::<_, PipelineError>(
                msgs_view(out@),
            ),
            Err(e) => split_batch(msgs_view(batch@), array_path@) == Err::<Seq<SpecMessage>, _>(e),
        },
{
    let ghost full = msgs_view(batch@);
    let mut out: Vec<Message> = Vec::new();
    let mut i: usize = 0;
    proof {
        assert(full.take(0) =~= Seq::<SpecMessage>::empty());
        assert(msgs_view(out@) =~= Seq::<SpecMessage>::empty());
    }
    while i < batch.len()
        invariant
            i <= batch@.len(),
            full == msgs_view(batch@),
            split_batch(full.take(i as int), array_path@) == Ok::<_, PipelineError>(
                msgs_view(out@),
            ),
        decreases batch@.len() - i,
    {
        let ghost acc0 = msgs_view(out@);
        match split_message(&batch[i], array_path) {
            Ok(mut pieces) => {
                let ghost pv = msgs_view(pieces@);
                out.append(&mut pieces);
                i += 1;
                proof {
                    lemma_split_batch_snoc_ok(
                        full.take(i - 1),
                        full[i - 1],
                        array_path@,
                        acc0,
                        pv,
                    );
                    assert(full.take(i - 1).push(full[i - 1]) =~= full.take(i as int));
                    assert(msgs_view(out@) =~= acc0 + pv);
                }
            },
            Err(e) => {
                proof {
                    lemma_split_batch_snoc_err(full.take(i as int), full[i as int], array_path@, acc0, e);
                    assert(full.take(i as int).push(full[i as int]) =~= full.take(i + 1));
                    lemma_split_batch_prefix_err(full, array_path@, i + 1, e);
                }
                return Err(e);
            },
        }
    }
    proof {
        assert(full.take(batch@.len() as int) =~= full);
    }
    Ok(out)
}

/// The export a Logic stage invokes: the last rule's file name up to its
/// `.js` suffix; none when the stage declares no rules or its last rule
/// names no `.js` file.
pub open spec fn export_spec(rules: Seq<Seq<char>>) -> Option<Seq<char>> {
    if rules.len() == 0 {
        None
    } else {
        let last = rules[rules.len() - 1];
        let i = find_sub_from(last, ".js"@, 0);
        if i == -1 {
            None
        } else {
            Some(last.subrange(0, i))
        }
    }
}

/// The export named by a Logic stage's rules.
pub fn export_of(rules: &Vec<String>) -> (r: Option<String>)
    ensures
        match r {
            Some(e) => export_spec(strs_view(rules@)) == Some(e@),
            None => export_spec(strs_view(rules@)) is None,
        },
{
    if rules.len() == 0 {
        return None;
    }
    let last = &rules[rules.len() - 1];
    let chars = to_chars(last.as_str());
    let pat = to_chars(".js");
    match crate::text::find_sub(&chars, &pat) {
        Some(i) => Some(crate::text::substring_range(&chars, 0, i)),
        None => None,
    }
}

/// View of a trace: per module name, the batch it produced.
pub open spec fn trace_view(tr: Seq<(String, Vec<Message>)>) -> Seq<(Seq<char>, Seq<SpecMessage>)> {
    Seq::new(tr.len(), |i: int| (tr[i].0@, msgs_view(tr[i].1@)))
}

/// What a module kind does to its input batch. Splitting stages transform
/// it by the splitting engine; Logic stages return one message per input
/// message, each keeping its date tag (content is whatever the scripts
/// produced); the reserved kinds never produce output; everything else
/// passes the batch through unchanged.
pub open spec fn output_rel(
    m: SpecModule,
    input: Seq<SpecMessage>,
    out: Seq<SpecMessage>,
) -> bool {
    match m {
        SpecModule::Splitting { array_path, .. } => split_batch(input, array_path)
            == Ok::<_, PipelineError>(out),
        SpecModule::Logic { .. } => out.len() == input.len() && forall|i: int|
            0 <= i < out.len() ==> out[i].date == input[i].date,
        SpecModule::Lookup { .. } => false,
        SpecModule::Reporting { .. } => false,
        SpecModule::Aggregation { .. } => false,
        SpecModule::Deduplication { .. } => false,
        _ => out == input,
    }
}

/// The batch a child under `label` receives: after a Logic stage only the
/// messages whose route is `label`; after every other stage the whole
/// output batch, broadcast.
pub open spec fn child_input(from_logic: bool, out: Seq<SpecMessage>, label: Seq<char>) -> Seq<
    SpecMessage,
> {
    if from_logic {
        out.filter(route_pred(label))
    } else {
        out
    }
}

/// A trace is a valid run of a node on an input batch: its first entry is
/// the node's own output under the node's name, related to the input by the
/// module's kind, and the rest is the concatenation of valid runs of the
/// children, each on its route's share of the output.
pub open spec fn valid_run(
    t: SpecTree,
    input: Seq<SpecMessage>,
    trace: Seq<(Seq<char>, Seq<SpecMessage>)>,
) -> bool
    decreases t, 0int,
{
    &&& trace.len() >= 1
    &&& trace[0].0 == spec_name(t.module)
    &&& output_rel(t.module, input, trace[0].1)
    &&& valid_children(t.children, t.module is Logic, trace[0].1, trace.drop_first())
}

/// The traces of the children, in order, concatenated.
pub open spec fn valid_children(
    cs: Seq<(SpecTree, Seq<char>)>,
    from_logic: bool,
    parent_out: Seq<SpecMessage>,
    trace: Seq<(Seq<char>, Seq<SpecMessage>)>,
) -> bool
    decreases cs, 1int,
{
    if cs.len() == 0 {
        trace.len() == 0
    } else {
        exists|k: int|
            1 <= k <= trace.len() && valid_run(
                cs[0].0,
                child_input(from_logic, parent_out, cs[0].1),
                #[trigger] trace.subrange(0, k),
            ) && valid_children(
                cs.drop_first(),
                from_logic,
                parent_out,
                trace.subrange(k, trace.len() as int),
            )
    }
}

/// A child's valid trace can be appended to the valid traces of the
/// children before it.
proof fn lemma_children_snoc(
    cs: Seq<(SpecTree, Seq<char>)>,
    from_logic: bool,
    parent_out: Seq<SpecMessage>,
    done: Seq<(Seq<char>, Seq<SpecMessage>)>,
    one: (SpecTree, Seq<char>),
    sub: Seq<(Seq<char>, Seq<SpecMessage>)>,
)
    requires
        valid_children(cs, from_logic, parent_out, done),
        valid_run(one.0, child_input(from_logic, parent_out, one.1), sub),
    ensures
        valid_children(cs.push(one), from_logic, parent_out, done + sub),
    decreases cs.len(),
{
    let whole = done + sub;
    if cs.len() == 0 {
        assert(done.len() == 0);
        assert(cs.push(one)[0] == one);
        assert(whole.subrange(0, sub.len() as int) =~= sub);
        assert(whole.subrange(sub.len() as int, whole.len() as int) =~= Seq::<
            (Seq<char>, Seq<SpecMessage>),
        >::empty());
        assert(cs.push(one).drop_first() =~= Seq::<(SpecTree, Seq<char>)>::empty());
        assert(sub.len() >= 1);
        assert(1 <= sub.len() <= whole.len() && valid_run(
            cs.push(one)[0].0,
            child_input(from_logic, parent_out, cs.push(one)[0].1),
            whole.subrange(0, sub.len() as int),
        ) && valid_children(
            cs.push(one).drop_first(),
            from_logic,
            parent_out,
            whole.subrange(sub.len() as int, whole.len() as int),
        ));
    } else {
        let k = choose|k: int|
            1 <= k <= done.len() && valid_run(
                cs[0].0,
                child_input(from_logic, parent_out, cs[0].1),
                #[trigger] done.subrange(0, k),
            ) && valid_children(
                cs.drop_first(),
                from_logic,
                parent_out,
                done.subrange(k, done.len() as int),
            );
        lemma_children_snoc(
            cs.drop_first(),
            from_logic,
            parent_out,
            done.subrange(k, done.len() as int),
            one,
            sub,
        );
        assert(cs.push(one)[0] == cs[0]);
        assert(cs.push(one).drop_first() =~= cs.drop_first().push(one));
        assert(whole.subrange(0, k) =~= done.subrange(0, k));
        assert(whole.subrange(k, whole.len() as int) =~= done.subrange(k, done.len() as int)
            + sub);
        assert(1 <= k <= whole.len() && valid_run(
            cs.push(one)[0].0,
            child_input(from_logic, parent_out, cs.push(one)[0].1),
            whole.subrange(0, k),
        ) && valid_children(
            cs.push(one).drop_first(),
            from_logic,
            parent_out,
            whole.subrange(k, whole.len() as int),
        ));
    }
}

/// The ceiling on tree recursion depth; exceeding it signals a
/// configuration error (most likely a cycle induced by input references).
pub const RECURSION_LIMIT: usize = 200;

/// A module the engine passes through unchanged: the ingestion kinds,
/// whose work happens before the engine runs.
pub open spec fn is_passthrough(m: SpecModule) -> bool {
    m is MessageIngestion || m is FileIngestion
}

/// A tree made only of pass-through modules.
pub open spec fn passthrough_only(t: SpecTree) -> bool
    decreases t, 0int,
{
    is_passthrough(t.module) && all_passthrough(t.children)
}

pub open spec fn all_passthrough(cs: Seq<(SpecTree, Seq<char>)>) -> bool
    decreases cs, 1int,
{
    if cs.len() == 0 {
        true
    } else {
        passthrough_only(cs[0].0) && all_passthrough(cs.drop_first())
    }
}

/// The number of nodes on the longest root-to-leaf chain.
pub open spec fn tree_depth(t: SpecTree) -> nat
    decreases t, 0int,
{
    1 + children_depth(t.children)
}

pub open spec fn children_depth(cs: Seq<(SpecTree, Seq<char>)>) -> nat
    decreases cs, 1int,
{
    if cs.len() == 0 {
        0
    } else {
        let first = tree_depth(cs[0].0);
        let rest = children_depth(cs.drop_first());
        if first >= rest {
            first
        } else {
            rest
        }
    }
}

proof fn lemma_all_passthrough(cs: Seq<(SpecTree, Seq<char>)>, i: int)
    requires
        all_passthrough(cs),
        0 <= i < cs.len(),
    ensures
        passthrough_only(cs[i].0),
    decreases cs.len(),
{
    if i > 0 {
        lemma_all_passthrough(cs.drop_first(), i - 1);
        assert(cs.drop_first()[i - 1] == cs[i]);
    }
}

proof fn lemma_children_depth(cs: Seq<(SpecTree, Seq<char>)>, i: int)
    requires
        0 <= i < cs.len(),
    ensures
        tree_depth(cs[i].0) <= children_depth(cs),
    decreases cs.len(),
{
    if i > 0 {
        lemma_children_depth(cs.drop_first(), i - 1);
        assert(cs.drop_first()[i - 1] == cs[i]);
    }
}

/// The reserved module kinds, which the engine refuses to run.
pub open spec fn is_reserved(m: SpecModule) -> bool {
    m is Lookup || m is Reporting || m is Aggregation || m is Deduplication
}

/// A tree without a Logic stage: on such a tree no script collaborator is
/// involved, and the engine's behaviour is fully determined by the input.
pub open spec fn logic_free(t: SpecTree) -> bool
    decreases t, 0int,
{
    !(t.module is Logic) && logic_free_children(t.children)
}

pub open spec fn logic_free_children(cs: Seq<(SpecTree, Seq<char>)>) -> bool
    decreases cs, 1int,
{
    if cs.len() == 0 {
        true
    } else {
        logic_free(cs[0].0) && logic_free_children(cs.drop_first())
    }
}

proof fn lemma_logic_free_children_index(cs: Seq<(SpecTree, Seq<char>)>, i: int)
    requires
        logic_free_children(cs),
        0 <= i < cs.len(),
    ensures
        logic_free(cs[i].0),
    decreases cs.len(),
{
    if i > 0 {
        lemma_logic_free_children_index(cs.drop_first(), i - 1);
        assert(cs.drop_first()[i - 1] == cs[i]);
    }
}

/// What one module kind makes of its input batch, for every kind whose
/// output the input determines. A Logic stage's output is whatever the
/// scripts produce, so its arm stands for no particular value; the engine
/// clauses that use this interpreter condition on Logic-free trees.
pub open spec fn node_output(m: SpecModule, input: Seq<SpecMessage>) -> Result<
    Seq<SpecMessage>,
    PipelineError,
> {
    match m {
        SpecModule::Splitting { array_path, .. } => split_batch(input, array_path),
        SpecModule::Logic { .. } => vstd::pervasive::arbitrary(),
        SpecModule::Lookup { .. } => Err(PipelineError::NotImplemented),
        SpecModule::Reporting { .. } => Err(PipelineError::NotImplemented),
        SpecModule::Aggregation { .. } => Err(PipelineError::NotImplemented),
        SpecModule::Deduplication { .. } => Err(PipelineError::NotImplemented),
        _ => Ok(input),
    }
}

/// The engine's whole result on a Logic-free tree: abort past the depth
/// ceiling; otherwise apply the node's kind to the input, and if that
/// succeeds run every child, in order, on the broadcast output, stopping at
/// the first error.
pub open spec fn run_spec(t: SpecTree, input: Seq<SpecMessage>, count: int) -> Result<
    Seq<(Seq<char>, Seq<SpecMessage>)>,
    PipelineError,
>
    decreases t, 0int,
{
    if count > RECURSION_LIMIT {
        Err(PipelineError::RecursionLimit)
    } else {
        match node_output(t.module, input) {
            Err(e) => Err(e),
            Ok(out) => match run_children_spec(t.children, out, count + 1) {
                Ok(rest) => Ok(seq![(spec_name(t.module), out)] + rest),
                Err(e) => Err(e),
            },
        }
    }
}

pub open spec fn run_children_spec(
    cs: Seq<(SpecTree, Seq<char>)>,
    out: Seq<SpecMessage>,
    count: int,
) -> Result<Seq<(Seq<char>, Seq<SpecMessage>)>, PipelineError>
    decreases cs, 1int,
{
    if cs.len() == 0 {
        Ok(Seq::empty())
    } else {
        match run_spec(cs[0].0, out, count) {
            Err(e) => Err(e),
            Ok(first) => match run_children_spec(cs.drop_first(), out, count) {
                Ok(rest) => Ok(first + rest),
                Err(e) => Err(e),
            },
        }
    }
}

/// A child that runs cleanly extends a clean children run.
proof fn lemma_run_children_snoc_ok(
    cs: Seq<(SpecTree, Seq<char>)>,
    out: Seq<SpecMessage>,
    count: int,
    one: (SpecTree, Seq<char>),
    acc: Seq<(Seq<char>, Seq<SpecMessage>)>,
    sub: Seq<(Seq<char>, Seq<SpecMessage>)>,
)
    requires
        run_children_spec(cs, out, count) == Ok::<_, PipelineError>(acc),
        run_spec(one.0, out, count) == Ok::<_, PipelineError>(sub),
    ensures
        run_children_spec(cs.push(one), out, count) == Ok::<_, PipelineError>(acc + sub),
    decreases cs.len(),
{
    if cs.len() == 0 {
        reveal_with_fuel(run_children_spec, 2);
        assert(cs.push(one)[0] == one);
        assert(cs.push(one).drop_first() =~= Seq::<(SpecTree, Seq<char>)>::empty());
        assert(sub + Seq::<(Seq<char>, Seq<SpecMessage>)>::empty() =~= sub);
        assert(acc =~= Seq::<(Seq<char>, Seq<SpecMessage>)>::empty());
        assert(acc + sub =~= sub);
    } else {
        let first = match run_spec(cs[0].0, out, count) {
            Ok(f) => f,
            Err(_) => Seq::empty(),
        };
        let rest = match run_children_spec(cs.drop_first(), out, count) {
            Ok(r) => r,
            Err(_) => Seq::empty(),
        };
        lemma_run_children_snoc_ok(cs.drop_first(), out, count, one, rest, sub);
        assert(cs.push(one)[0] == cs[0]);
        assert(cs.push(one).drop_first() =~= cs.drop_first().push(one));
        assert(first + (rest + sub) =~= (first + rest) + sub);
    }
}

/// A child that fails fails the whole children run from there on.
proof fn lemma_run_children_snoc_err(
    cs: Seq<(SpecTree, Seq<char>)>,
    out: Seq<SpecMessage>,
    count: int,
    one: (SpecTree, Seq<char>),
    acc: Seq<(Seq<char>, Seq<SpecMessage>)>,
    e: PipelineError,
)
    requires
        run_children_spec(cs, out, count) == Ok::<_, PipelineError>(acc),
        run_spec(one.0, out, count) == Err::<Seq<(Seq<char>, Seq<SpecMessage>)>, _>(e),
    ensures
        run_children_spec(cs.push(one), out, count) == Err::<
            Seq<(Seq<char>, Seq<SpecMessage>)>,
            _,
        >(e),
    decreases cs.len(),
{
    if cs.len() == 0 {
        reveal_with_fuel(run_children_spec, 2);
        assert(cs.push(one)[0] == one);
        assert(cs.push(one).drop_first() =~= Seq::<(SpecTree, Seq<char>)>::empty());
    } else {
        let rest = match run_children_spec(cs.drop_first(), out, count) {
            Ok(r) => r,
            Err(_) => Seq::empty(),
        };
        lemma_run_children_snoc_err(cs.drop_first(), out, count, one, rest, e);
        assert(cs.push(one)[0] == cs[0]);
        assert(cs.push(one).drop_first() =~= cs.drop_first().push(one));
    }
}

/// A failing prefix fails the whole children run.
proof fn lemma_run_children_prefix_err(
    cs: Seq<(SpecTree, Seq<char>)>,
    out: Seq<SpecMessage>,
    count: int,
    i: int,
    e: PipelineError,
)
    requires
        0 <= i <= cs.len(),
        run_children_spec(cs.take(i), out, count) == Err::<
            Seq<(Seq<char>, Seq<SpecMessage>)>,
            _,
        >(e),
    ensures
        run_children_spec(cs, out, count) == Err::<Seq<(Seq<char>, Seq<SpecMessage>)>, _>(e),
    decreases cs.len(),
{
    assert(i > 0);
    assert(cs.take(i)[0] == cs[0]);
    match run_spec(cs[0].0, out, count) {
        Err(_) => {},
        Ok(_) => {
            assert(cs.take(i).drop_first() =~= cs.drop_first().take(i - 1));
            lemma_run_children_prefix_err(cs.drop_first(), out, count, i - 1, e);
        },
    }
}

/// A bound on every child's depth bounds the children's depth.
proof fn lemma_children_depth_bound(cs: Seq<(SpecTree, Seq<char>)>, b: int)
    requires
        forall|i: int| 0 <= i < cs.len() ==> tree_depth((#[trigger] cs[i]).0) <= b,
        b >= 0,
    ensures
        children_depth(cs) <= b,
    decreases cs.len(),
{
    if cs.len() > 0 {
        let rest = cs.drop_first();
        assert(forall|i: int| 0 <= i < rest.len() ==> #[trigger] rest[i] == cs[i + 1]);
        lemma_children_depth_bound(rest, b);
    }
}

/// Walk the tree from `t`: apply the node's module to the input batch,
/// record the output under the node's name, and run every child on its
/// share of it. Returns the per-node outputs in depth-first order, or the
/// first error.
fn run_node<E: ScriptEngine>(t: &PbTree, input: Vec<Message>, engine: &mut E, count: usize) -> (r:
    Result<Vec<(String, Vec<Message>)>, PipelineError>)
    ensures
        match r {
            Ok(trace) => valid_run(t@, msgs_view(input@), trace_view(trace@)),
            Err(_) => true,
        },
        passthrough_only(t@) && count + tree_depth(t@) <= RECURSION_LIMIT + 1 ==> r is Ok,
        count > RECURSION_LIMIT ==> r == Err::<Vec<(String, Vec<Message>)>, _>(
            PipelineError::RecursionLimit,
        ),
        count + tree_depth(t@) > RECURSION_LIMIT + 1 ==> r is Err,
        count <= RECURSION_LIMIT && is_reserved(t@.module) ==> r == Err::<
            Vec<(String, Vec<Message>)>,
            _,
        >(PipelineError::NotImplemented),
        count <= RECURSION_LIMIT && t@.module is Logic && export_spec(
            crate::playbook::spec_rules(t@.module),
        ) is None ==> r == Err::<Vec<(String, Vec<Message>)>, _>(PipelineError::BadRules),
        logic_free(t@) ==> (match r {
            Ok(trace) => run_spec(t@, msgs_view(input@), count as int) == Ok::<_, PipelineError>(
                trace_view(trace@),
            ),
            Err(e) => run_spec(t@, msgs_view(input@), count as int) == Err::<
                Seq<(Seq<char>, Seq<SpecMessage>)>,
                _,
            >(e),
        }),
    decreases *t,
{
    if count > RECURSION_LIMIT {
        proof {
            if passthrough_only(t@) {
                assert(tree_depth(t@) >= 1);
            }
            assert(tree_depth(t@) >= 1);
        }
        return Err(PipelineError::RecursionLimit);
    }
    let ghost iv = msgs_view(input@);
    let out: Vec<Message>;
    match &t.module {
        Module::Logic { rules, name, .. } => {
            proof {
                assert(crate::playbook::spec_rules(t.module@) == strs_view(rules@));
            }
            match export_of(rules) {
                Some(export) => {
                    let modname = name.clone();
                    match crate::dispatch::dispatch_batch(engine, input, &modname, &export) {
                        Ok(o) => {
                            out = o;
                        },
                        Err(e) => {
                            return Err(e);
                        },
                    }
                },
                None => {
                    return Err(PipelineError::BadRules);
                },
            }
        },
        Module::Splitting { array_path, .. } => {
            match split_batch_exec(&input, array_path) {
                Ok(o) => {
                    out = o;
                },
                Err(e) => {
                    proof {
                        if logic_free(t@) {
                            assert(node_output(t@.module, iv) == Err::<Seq<SpecMessage>, _>(e));
                            assert(run_spec(t@, iv, count as int) == Err::<
                                Seq<(Seq<char>, Seq<SpecMessage>)>,
                                _,
                            >(e));
                        }
                    }
                    return Err(e);
                },
            }
        },
        Module::Lookup { .. } => {
            return Err(PipelineError::NotImplemented);
        },
        Module::Reporting { .. } => {
            return Err(PipelineError::NotImplemented);
        },
        Module::Aggregation { .. } => {
            return Err(PipelineError::NotImplemented);
        },
        Module::Deduplication { .. } => {
            return Err(PipelineError::NotImplemented);
        },
        _ => {
            out = input;
        },
    }
    let ghost ov = msgs_view(out@);
    proof {
        assert(output_rel(t.module@, iv, ov));
        assert(!is_reserved(t@.module));
        if !(t@.module is Logic) {
            assert(node_output(t@.module, iv) == Ok::<_, PipelineError>(ov));
        }
    }
    let name: String = t.module.name().to_owned();
    let is_logic = matches!(&t.module, Module::Logic { .. });
    proof {
        assert(is_logic == t.module@ is Logic);
    }
    let stored = dup_batch(&out);
    let mut trace: Vec<(String, Vec<Message>)> = Vec::new();
    trace.push((name, stored));
    proof {
        assert(trace_view(trace@) =~= seq![(spec_name(t.module@), ov)]);
        lemma_view_children(t.children@);
        assert(view_children(t.children@).take(0) =~= Seq::<(SpecTree, Seq<char>)>::empty());
        assert(trace_view(trace@).drop_first() =~= Seq::<(Seq<char>, Seq<SpecMessage>)>::empty());
    }
    let mut ci: usize = 0;
    while ci < t.children.len()
        invariant
            ci <= t.children@.len(),
            count <= RECURSION_LIMIT,
            iv == msgs_view(input@),
            ov == msgs_view(out@),
            is_logic == t.module@ is Logic,
            output_rel(t.module@, iv, ov),
            trace_view(trace@).len() >= 1,
            trace_view(trace@)[0] == (spec_name(t.module@), ov),
            view_children(t.children@).len() == t.children@.len(),
            forall|k: int|
                0 <= k < t.children@.len() ==> view_children(t.children@)[k] == (
                    view_tree(t.children@[k].0),
                    t.children@[k].1@,
                ),
            valid_children(
                view_children(t.children@).take(ci as int),
                is_logic,
                ov,
                trace_view(trace@).drop_first(),
            ),
            !is_reserved(t@.module),
            t@.module is Logic ==> export_spec(crate::playbook::spec_rules(t@.module)) is Some,
            !(t@.module is Logic) ==> node_output(t@.module, iv) == Ok::<_, PipelineError>(ov),
            forall|k: int|
                0 <= k < ci ==> count + 1 + tree_depth(
                    (#[trigger] view_children(t.children@)[k]).0,
                ) <= RECURSION_LIMIT + 1,
            logic_free(t@) ==> run_children_spec(
                view_children(t.children@).take(ci as int),
                ov,
                count + 1,
            ) == Ok::<_, PipelineError>(trace_view(trace@).drop_first()),
        decreases t.children@.len() - ci,
    {
        let child = &t.children[ci].0;
        let label = &t.children[ci].1;
        let child_in = if is_logic {
            partition_by_route(&out, label)
        } else {
            dup_batch(&out)
        };
        proof {
            assert(msgs_view(child_in@) == child_input(is_logic, ov, label@));
            assert(decreases_to!(*t => t.children));
            assert(decreases_to!(t.children => t.children@));
            assert(decreases_to!(t.children@ => t.children@[ci as int]));
            assert(decreases_to!(t.children@[ci as int] => t.children@[ci as int].0));
        }
        match run_node(child, child_in, engine, count + 1) {
            Ok(mut sub) => {
                let ghost subv = trace_view(sub@);
                let ghost done = trace_view(trace@).drop_first();
                let ghost trace0 = trace@;
                trace.append(&mut sub);
                proof {
                    let cv = view_children(t.children@);
                    let one = cv[ci as int];
                    assert(valid_run(one.0, child_input(is_logic, ov, one.1), subv));
                    lemma_children_snoc(cv.take(ci as int), is_logic, ov, done, one, subv);
                    assert(cv.take(ci as int).push(one) =~= cv.take(ci + 1));
                    assert(trace_view(trace@) =~= trace_view(trace0) + subv);
                    assert(trace_view(trace@).drop_first() =~= done + subv);
                    if logic_free(t@) {
                        lemma_logic_free_children_index(t@.children, ci as int);
                        assert(msgs_view(child_in@) == ov);
                        assert(run_spec(one.0, ov, count + 1) == Ok::<_, PipelineError>(subv));
                        lemma_run_children_snoc_ok(
                            cv.take(ci as int),
                            ov,
                            count + 1,
                            one,
                            done,
                            subv,
                        );
                    }
                }
                ci += 1;
            },
            Err(e) => {
                proof {
                    if passthrough_only(t@) && count + tree_depth(t@) <= RECURSION_LIMIT + 1 {
                        lemma_all_passthrough(t@.children, ci as int);
                        lemma_children_depth(t@.children, ci as int);
                        assert(t@.children[ci as int].0 == view_tree(t.children@[ci as int].0));
                        assert(false);
                    }
                    if logic_free(t@) {
                        let cv = view_children(t.children@);
                        let one = cv[ci as int];
                        let done = trace_view(trace@).drop_first();
                        lemma_logic_free_children_index(t@.children, ci as int);
                        assert(msgs_view(child_in@) == ov);
                        assert(run_spec(one.0, ov, count + 1) == Err::<
                            Seq<(Seq<char>, Seq<SpecMessage>)>,
                            _,
                        >(e));
                        lemma_run_children_snoc_err(
                            cv.take(ci as int),
                            ov,
                            count + 1,
                            one,
                            done,
                            e,
                        );
                        assert(cv.take(ci as int).push(one) =~= cv.take(ci + 1));
                        lemma_run_children_prefix_err(cv, ov, count + 1, ci + 1, e);
                        assert(t@.children == cv);
                        assert(run_spec(t@, iv, count as int) == Err::<
                            Seq<(Seq<char>, Seq<SpecMessage>)>,
                            _,
                        >(e));
                    }
                }
                return Err(e);
            },
        }
    }
    proof {
        let cv = view_children(t.children@);
        assert(cv.take(t.children@.len() as int) =~= cv);
        assert(t@ == (SpecTree { module: t.module@, children: cv }));
        assert(valid_run(t@, iv, trace_view(trace@)));
        if count + tree_depth(t@) > RECURSION_LIMIT + 1 {
            lemma_children_depth_bound(cv, RECURSION_LIMIT - count);
            assert(tree_depth(t@) == 1 + children_depth(cv));
            assert(false);
        }
        if logic_free(t@) {
            let done = trace_view(trace@).drop_first();
            assert(run_children_spec(cv, ov, count + 1) == Ok::<_, PipelineError>(done));
            assert(trace_view(trace@) =~= seq![(spec_name(t.module@), ov)] + done);
            assert(run_spec(t@, iv, count as int) == Ok::<_, PipelineError>(
                trace_view(trace@),
            ));
        }
    }
    Ok(trace)
}

/// Run a whole playbook: drive the ingestion batch through the execution
/// tree, dispatching Logic stages to the script engine. On success the
/// returned trace holds, in depth-first order, each node's output batch
/// under its module name, and is a valid run of the tree on the batch.
/// On a Logic-free tree, where no script collaborator is involved, the
/// result equals `run_spec`, a deterministic interpreter of the tree: the
/// run succeeds exactly when the depth fits the ceiling, no reserved kind
/// is reached and every Splitting stage's batch splits cleanly, and it
/// fails with that stage's error otherwise. On every tree, a depth beyond
/// the ceiling, a reserved root kind, or a Logic root without a usable
/// `.js` rule is refused with the matching configuration error.
pub fn execute_playbook<E: ScriptEngine>(pb_tree: PbTree, ingestion: Vec<Message>, engine: &mut E)
    -> (r: Result<Vec<(String, Vec<Message>)>, PipelineError>)
    ensures
        match r {
            Ok(trace) => valid_run(pb_tree@, msgs_view(ingestion@), trace_view(trace@)),
            Err(_) => true,
        },
        passthrough_only(pb_tree@) && tree_depth(pb_tree@) <= RECURSION_LIMIT + 1 ==> r is Ok,
        tree_depth(pb_tree@) > RECURSION_LIMIT + 1 ==> r is Err,
        is_reserved(pb_tree@.module) ==> r == Err::<Vec<(String, Vec<Message>)>, _>(
            PipelineError::NotImplemented,
        ),
        pb_tree@.module is Logic && export_spec(crate::playbook::spec_rules(pb_tree@.module))
            is None ==> r == Err::<Vec<(String, Vec<Message>)>, _>(PipelineError::BadRules),
        logic_free(pb_tree@) ==> (match r {
            Ok(trace) => run_spec(pb_tree@, msgs_view(ingestion@), 0) == Ok::<_, PipelineError>(
                trace_view(trace@),
            ),
            Err(e) => run_spec(pb_tree@, msgs_view(ingestion@), 0) == Err::<
                Seq<(Seq<char>, Seq<SpecMessage>)>,
                _,
            >(e),
        }),
{
    run_node(&pb_tree, ingestion, engine, 0)
}

/// Splitting count law, payload side: a dotted path into the payload that
/// resolves to an array of length N yields exactly N messages (so one for
/// N == 1 and none for N == 0), and every one of them carries the input's
/// mediation map and date tag unchanged.
pub proof fn lemma_split_count_payload(
    m: SpecMessage,
    ap: Seq<char>,
    out: Seq<SpecMessage>,
    doc: SpecJson,
    es: Seq<SpecJson>,
)
    requires
        dot_split(ap)[0] != "billingmediation"@,
        sp_doc(m.inner.payload) == Some(doc),
        get_path(doc, dot_split(ap)) == Some(SpecJson::Arr(es)),
        split_one(m, ap) == Ok::<_, PipelineError>(out),
    ensures
        out.len() == es.len(),
        forall|i: int|
            0 <= i < out.len() ==> (#[trigger] out[i]).inner.billingmediation
                == m.inner.billingmediation && out[i].date == m.date,
{
    if es.len() == 1 {
        assert(out[0] == (SpecMessage {
            inner: SpecMessageInner {
                billingmediation: m.inner.billingmediation,
                payload: m.inner.payload,
            },
            date: m.date,
        }));
    }
}

/// Splitting count law, mediation-map side: a path into the mediation map
/// that resolves to an array of length N yields exactly N messages, each
/// sharing the input's payload byte for byte and its date tag.
pub proof fn lemma_split_count_bm(
    m: SpecMessage,
    ap: Seq<char>,
    out: Seq<SpecMessage>,
    es: Seq<SpecJson>,
)
    requires
        dot_split(ap)[0] == "billingmediation"@,
        get_path(SpecJson::Obj(m.inner.billingmediation), dot_split(ap).drop_first()) == Some(
            SpecJson::Arr(es),
        ),
        split_one(m, ap) == Ok::<_, PipelineError>(out),
    ensures
        out.len() == es.len(),
        forall|i: int|
            0 <= i < out.len() ==> (#[trigger] out[i]).inner.payload == m.inner.payload
                && out[i].date == m.date,
{
}

/// Splitting element law, mediation-map side: the i-th output's targeted
/// array is exactly the singleton of the i-th input element, whatever the
/// element is.
pub proof fn lemma_split_element_bm(
    m: SpecMessage,
    ap: Seq<char>,
    out: Seq<SpecMessage>,
    es: Seq<SpecJson>,
    i: int,
)
    requires
        dot_split(ap)[0] == "billingmediation"@,
        get_path(SpecJson::Obj(m.inner.billingmediation), dot_split(ap).drop_first()) == Some(
            SpecJson::Arr(es),
        ),
        split_one(m, ap) == Ok::<_, PipelineError>(out),
        0 <= i < es.len(),
    ensures
        get_path(SpecJson::Obj(out[i].inner.billingmediation), dot_split(ap).drop_first()) == Some(
            SpecJson::Arr(seq![es[i]]),
        ),
{
    let p = dot_split(ap).drop_first();
    let doc = SpecJson::Obj(m.inner.billingmediation);
    let docs = split_targets(doc, p).unwrap();
    lemma_get_set(doc, p, SpecJson::Arr(seq![es[i]]));
    lemma_split_target_obj(doc, p, docs, i);
    assert(docs[i] == SpecJson::Obj(out[i].inner.billingmediation));
}

/// Splitting element law, payload side: the i-th output text is the
/// serialization of the input document with the targeted array replaced by
/// the singleton of the i-th element, whatever the element is.
pub proof fn lemma_split_element_payload(
    m: SpecMessage,
    ap: Seq<char>,
    out: Seq<SpecMessage>,
    doc: SpecJson,
    es: Seq<SpecJson>,
    i: int,
)
    requires
        dot_split(ap)[0] != "billingmediation"@,
        sp_doc(m.inner.payload) == Some(doc),
        get_path(doc, dot_split(ap)) == Some(SpecJson::Arr(es)),
        split_one(m, ap) == Ok::<_, PipelineError>(out),
        es.len() > 1,
        0 <= i < es.len(),
    ensures
        out[i].inner.payload == ser_json(set_path(doc, dot_split(ap), SpecJson::Arr(seq![es[i]]))),
        get_path(set_path(doc, dot_split(ap), SpecJson::Arr(seq![es[i]])), dot_split(ap)) == Some(
            SpecJson::Arr(seq![es[i]]),
        ),
{
    lemma_get_set(doc, dot_split(ap), SpecJson::Arr(seq![es[i]]));
}

/// Splitting element law, payload side, at the text level: the i-th output
/// text parses back to the input document with the targeted array replaced
/// by the singleton of the i-th element, so the targeted array of the
/// reparsed output is exactly that singleton, whatever the element is.
pub proof fn lemma_split_element_payload_text(
    m: SpecMessage,
    ap: Seq<char>,
    out: Seq<SpecMessage>,
    doc: SpecJson,
    es: Seq<SpecJson>,
    i: int,
)
    requires
        dot_split(ap)[0] != "billingmediation"@,
        sp_doc(m.inner.payload) == Some(doc),
        get_path(doc, dot_split(ap)) == Some(SpecJson::Arr(es)),
        split_one(m, ap) == Ok::<_, PipelineError>(out),
        es.len() > 1,
        0 <= i < es.len(),
    ensures
        out[i].inner.payload == ser_json(set_path(doc, dot_split(ap), SpecJson::Arr(seq![es[i]]))),
        sp_doc(out[i].inner.payload) == Some(
            set_path(doc, dot_split(ap), SpecJson::Arr(seq![es[i]])),
        ),
        get_path(set_path(doc, dot_split(ap), SpecJson::Arr(seq![es[i]])), dot_split(ap)) == Some(
            SpecJson::Arr(seq![es[i]]),
        ),
{
    let p = dot_split(ap);
    let nv = SpecJson::Arr(seq![es[i]]);
    let target = set_path(doc, p, nv);
    lemma_sp_doc_wf(m.inner.payload);
    lemma_get_path_wf(doc, p);
    lemma_wf_arr_index(es, i);
    assert(forall|k: int| 0 <= k < seq![es[i]].len() ==> crate::json::wf_json(#[trigger] seq![es[i]][k]));
    lemma_wf_arr_build(seq![es[i]]);
    lemma_set_path_wf(doc, p, nv);
    lemma_parse_ser(target);
    lemma_get_set(doc, p, nv);
}

/// Round-trip idempotence, payload side: splitting a message whose target
/// array already has exactly one element returns that single message,
/// equal to the input.
pub proof fn lemma_split_idempotent_payload(
    m: SpecMessage,
    ap: Seq<char>,
    out: Seq<SpecMessage>,
    doc: SpecJson,
    es: Seq<SpecJson>,
)
    requires
        dot_split(ap)[0] != "billingmediation"@,
        sp_doc(m.inner.payload) == Some(doc),
        get_path(doc, dot_split(ap)) == Some(SpecJson::Arr(es)),
        split_one(m, ap) == Ok::<_, PipelineError>(out),
        es.len() == 1,
    ensures
        out == seq![m],
{
    assert(out[0] =~= m);
    assert(out =~= seq![m]);
}

/// Round-trip idempotence, mediation-map side: splitting a message whose
/// target array already has exactly one element returns that single
/// message, equal to the input.
pub proof fn lemma_split_idempotent_bm(
    m: SpecMessage,
    ap: Seq<char>,
    out: Seq<SpecMessage>,
    es: Seq<SpecJson>,
)
    requires
        dot_split(ap)[0] == "billingmediation"@,
        get_path(SpecJson::Obj(m.inner.billingmediation), dot_split(ap).drop_first()) == Some(
            SpecJson::Arr(es),
        ),
        split_one(m, ap) == Ok::<_, PipelineError>(out),
        es.len() == 1,
    ensures
        out == seq![m],
{
    let p = dot_split(ap).drop_first();
    let doc = SpecJson::Obj(m.inner.billingmediation);
    let docs = split_targets(doc, p).unwrap();
    assert(seq![es[0]] =~= es);
    lemma_set_same(doc, p, SpecJson::Arr(es));
    assert(docs[0] == doc);
    assert(out[0] =~= m);
    assert(out =~= seq![m]);
}

/// Routing law: after a Logic stage, the share of its output a child under
/// `label` receives holds exactly the messages whose own route is `label`
/// (the mediation map's `route` string, or `output` when the key is
/// absent), in batch order.
pub proof fn lemma_routing(out: Seq<SpecMessage>, label: Seq<char>, i: int)
    requires
        0 <= i < out.len(),
    ensures
        route_spec(out[i]) == label ==> child_input(true, out, label).contains(out[i]),
        forall|k: int|
            0 <= k < child_input(true, out, label).len() ==> route_spec(
                #[trigger] child_input(true, out, label)[k],
            ) == label,
        obj_lookup(out[i].inner.billingmediation, route_key()) is None ==> route_spec(out[i])
            == output_route(),
{
    if route_spec(out[i]) == label {
        out.lemma_filter_contains(route_pred(label), i);
    }
    assert forall|k: int| 0 <= k < child_input(true, out, label).len() implies route_spec(
        #[trigger] child_input(true, out, label)[k],
    ) == label by {
        out.lemma_filter_pred(route_pred(label), k);
    }
}

} // verus!
