//! The message envelope and the run options.
//!
//! A message carries a structured mediation map, an opaque JSON-text payload,
//! and a date tag. The payload stays serialized; the mediation map is held
//! structured.

use vstd::prelude::*;

use crate::json::{
    lemma_obj_index, lemma_parse_ser, lemma_raw_ok_plain, lemma_sp_doc_wf, lemma_wf_obj_build,
    lemma_wf_obj_index, obj_index, obj_lookup, raw_ok, ser_json, sp_doc, view_json, view_obj,
    wf_json, wf_obj, JsonValue, SpecJson,
};

verus! {

/// The payload side of a message: serialized JSON text, logically immutable.
pub type Payload = String;

/// JSON object members, in insertion order.
pub type JsonObj = Vec<(String, JsonValue)>;

/// Model of `MessageInner`.
#[verifier::ext_equal]
pub struct SpecMessageInner {
    pub billingmediation: Seq<(Seq<char>, SpecJson)>,
    pub payload: Seq<char>,
}

/// Model of `Message`.
#[verifier::ext_equal]
pub struct SpecMessage {
    pub inner: SpecMessageInner,
    pub date: Seq<char>,
}

/// The data of a message: its mediation map and its payload.
#[derive(Debug)]
pub struct MessageInner {
    pub billingmediation: JsonObj,
    pub payload: Payload,
}

impl View for MessageInner {
    type V = SpecMessageInner;

    open spec fn view(&self) -> SpecMessageInner {
        SpecMessageInner {
            billingmediation: view_obj(self.billingmediation@),
            payload: self.payload@,
        }
    }
}

/// The unit of data flowing through the execution tree.
#[derive(Debug)]
pub struct Message {
    pub inner: MessageInner,
    pub date: String,
}

impl View for Message {
    type V = SpecMessage;

    open spec fn view(&self) -> SpecMessage {
        SpecMessage { inner: self.inner@, date: self.date@ }
    }
}

impl MessageInner {
    /// A value equal to `self` (a deep copy).
    pub fn duplicate(&self) -> (r: MessageInner)
        ensures
            r@ == self@,
    {
        MessageInner {
            billingmediation: crate::json::dup_members(&self.billingmediation),
            payload: self.payload.clone(),
        }
    }
}

impl Message {
    /// A value equal to `self` (a deep copy).
    pub fn duplicate(&self) -> (r: Message)
        ensures
            r@ == self@,
    {
        Message { inner: self.inner.duplicate(), date: self.date.clone() }
    }
}

/// The key under which the mediation map travels inside a serialized message.
pub open spec fn bm_key() -> Seq<char> {
    "billingmediation"@
}

/// `ms` without its first member named `key` (unchanged if absent).
pub open spec fn obj_remove(ms: Seq<(Seq<char>, SpecJson)>, key: Seq<char>) -> Seq<
    (Seq<char>, SpecJson),
> {
    let i = obj_index(ms, key);
    if i >= 0 {
        ms.remove(i)
    } else {
        ms
    }
}

/// What `MessageInner::from_with_bm` yields on a given text: the document
/// must be a JSON object; its `billingmediation` member (an object, when
/// present) becomes the mediation map, the remaining members are
/// reserialized as the payload.
pub open spec fn from_with_bm_spec(s: Seq<char>) -> Option<SpecMessageInner> {
    match sp_doc(s) {
        Some(doc) => match doc {
            SpecJson::Obj(ms) => match obj_lookup(ms, bm_key()) {
                Some(v) => match v {
                    SpecJson::Obj(bm) => Some(
                        SpecMessageInner {
                            billingmediation: bm,
                            payload: ser_json(SpecJson::Obj(obj_remove(ms, bm_key()))),
                        },
                    ),
                    _ => None,
                },
                None => Some(
                    SpecMessageInner {
                        billingmediation: Seq::empty(),
                        payload: ser_json(SpecJson::Obj(ms)),
                    },
                ),
            },
            _ => None,
        },
        None => None,
    }
}

impl MessageInner {
    /// Split a serialized message into its mediation map and its payload.
    pub fn from_with_bm(value: &str) -> (r: Option<MessageInner>)
        ensures
            match r {
                Some(inner) => from_with_bm_spec(value@) == Some(inner@),
                None => from_with_bm_spec(value@) is None,
            },
    {
        let parsed = crate::json::parse_text(value);
        match parsed {
            Some(doc) => match doc {
                JsonValue::Obj(mut ms) => {
                    let key: String = String::from_str("billingmediation");
                    proof {
                        crate::json::lemma_view_obj(ms@);
                    }
                    match crate::json::obj_find(&ms, &key) {
                        Some(i) => {
                            let ghost ms0 = ms@;
                            let kv = ms.remove(i);
                            proof {
                                assert(view_obj(ms@) =~= view_obj(ms0).remove(i as int)) by {
                                    crate::json::lemma_view_obj(ms0);
                                    crate::json::lemma_view_obj(ms@);
                                    assert(ms@ =~= ms0.remove(i as int));
                                }
                            }
                            match kv.1 {
                                JsonValue::Obj(bm) => {
                                    let payload = JsonValue::Obj(ms).to_text();
                                    Some(MessageInner { billingmediation: bm, payload })
                                },
                                _ => None,
                            }
                        },
                        None => {
                            let payload = JsonValue::Obj(ms).to_text();
                            let bm: JsonObj = Vec::new();
                            proof {
                                assert(view_obj(bm@) =~= Seq::<(Seq<char>, SpecJson)>::empty());
                            }
                            Some(MessageInner { billingmediation: bm, payload })
                        },
                    }
                },
                _ => None,
            },
            None => None,
        }
    }
}

/// `ms` with its first member named `key` replaced by `nv`, or with
/// `(key, nv)` appended when the key is absent.
pub open spec fn obj_set(
    ms: Seq<(Seq<char>, SpecJson)>,
    key: Seq<char>,
    nv: SpecJson,
) -> Seq<(Seq<char>, SpecJson)> {
    let i = obj_index(ms, key);
    if i >= 0 {
        ms.update(i, (ms[i].0, nv))
    } else {
        ms.push((key, nv))
    }
}

/// What `MessageInner::render` yields: the payload object with the
/// mediation map written back under the `billingmediation` key, serialized.
pub open spec fn render_spec(m: SpecMessageInner) -> Option<Seq<char>> {
    match sp_doc(m.payload) {
        Some(doc) => match doc {
            SpecJson::Obj(pm) => Some(
                ser_json(
                    SpecJson::Obj(obj_set(pm, bm_key(), SpecJson::Obj(m.billingmediation))),
                ),
            ),
            _ => None,
        },
        None => None,
    }
}

impl MessageInner {
    /// Serialize the whole message: the payload object with the mediation
    /// map inserted under the `billingmediation` key.
    pub fn render(&self) -> (r: Option<String>)
        ensures
            match r {
                Some(s) => render_spec(self@) == Some(s@),
                None => render_spec(self@) is None,
            },
    {
        let parsed = crate::json::parse_text(self.payload.as_str());
        match parsed {
            Some(doc) => match doc {
                JsonValue::Obj(mut pm) => {
                    let key: String = String::from_str("billingmediation");
                    let bm = JsonValue::Obj(crate::json::dup_members(&self.billingmediation));
                    proof {
                        crate::json::lemma_view_obj(pm@);
                    }
                    match crate::json::obj_find(&pm, &key) {
                        Some(i) => {
                            let ghost pm0 = pm@;
                            let k2 = pm[i].0.clone();
                            pm.set(i, (k2, bm));
                            proof {
                                crate::json::lemma_view_obj(pm@);
                                crate::json::lemma_view_obj(pm0);
                                assert(view_obj(pm@) =~= obj_set(
                                    view_obj(pm0),
                                    bm_key(),
                                    SpecJson::Obj(view_obj(self.billingmediation@)),
                                ));
                            }
                            Some(JsonValue::Obj(pm).to_text())
                        },
                        None => {
                            let ghost pm0 = pm@;
                            pm.push((key, bm));
                            proof {
                                crate::json::lemma_view_obj(pm@);
                                crate::json::lemma_view_obj(pm0);
                                assert(view_obj(pm@) =~= obj_set(
                                    view_obj(pm0),
                                    bm_key(),
                                    SpecJson::Obj(view_obj(self.billingmediation@)),
                                ));
                            }
                            Some(JsonValue::Obj(pm).to_text())
                        },
                    }
                },
                _ => None,
            },
            None => None,
        }
    }
}

/// Per-input metadata handed along with a raw input file.
#[derive(Debug, Clone, Hash)]
pub struct InputMetadata {
    pub process_date: String,
}

/// One raw input: a file path and its metadata.
#[derive(Debug, Clone, Hash)]
pub struct Input {
    pub path: String,
    pub metadata: Option<InputMetadata>,
}

/// Line-level options applied while ingesting raw input.
#[derive(Debug, Clone, Hash, Default)]
pub struct IngestionOpts {
    pub head: u32,
    pub tail: u32,
    pub batch_size: u32,
    pub regex: Option<String>,
}

/// The options a whole run is started with.
#[derive(Debug, Clone, Default)]
pub struct Options {
    pub playbook_file_path: String,
    pub input: Vec<Input>,
    pub reports_dir: Option<String>,
    pub excluded_modules: Vec<String>,
    pub process_date: Option<String>,
    pub json_lookup_table: Option<(String, String)>,
    pub show_bench: bool,
    pub ingestion_opts: IngestionOpts,
}

/// Setting a member with a clean key and a well-formed value keeps the
/// member list well-formed.
pub proof fn lemma_obj_set_wf(ms: Seq<(Seq<char>, SpecJson)>, key: Seq<char>, nv: SpecJson)
    requires
        wf_obj(ms),
        raw_ok(key),
        wf_json(nv),
    ensures
        wf_obj(obj_set(ms, key, nv)),
{
    lemma_obj_index(ms, key);
    let i = obj_index(ms, key);
    let ms2 = obj_set(ms, key, nv);
    assert forall|k: int| 0 <= k < ms2.len() implies raw_ok((#[trigger] ms2[k]).0) && wf_json(
        ms2[k].1,
    ) by {
        if i >= 0 {
            if k != i {
                assert(ms2[k] == ms[k]);
                lemma_wf_obj_index(ms, k);
            } else {
                lemma_wf_obj_index(ms, i);
            }
        } else {
            if k < ms.len() {
                assert(ms2[k] == ms[k]);
                lemma_wf_obj_index(ms, k);
            } else {
                assert(ms2[k] == (key, nv));
            }
        }
    }
    lemma_wf_obj_build(ms2);
}

/// The `billingmediation` key is clean raw string content.
pub proof fn lemma_bm_key_raw_ok()
    ensures
        raw_ok(bm_key()),
{
    let s = bm_key();
    assert forall|k: int| 0 <= k < s.len() implies s[k] != '"' && #[trigger] s[k] != '\\' by {
        reveal_strlit("billingmediation");
    }
    lemma_raw_ok_plain(s);
}

/// Rendering parses back. The payload object is well-formed because it was
/// parsed; the round trip additionally needs the mediation map itself to be
/// well-formed (raw tokens the grammar can read back), which hand-built
/// values are not forced to be. Under that condition the rendered text is
/// valid JSON and parses to the payload object with the mediation map set
/// under the `billingmediation` key.
pub proof fn lemma_render_parses(m: SpecMessageInner, pm: Seq<(Seq<char>, SpecJson)>)
    requires
        sp_doc(m.payload) == Some(SpecJson::Obj(pm)),
        wf_obj(m.billingmediation),
    ensures
        render_spec(m) == Some(
            ser_json(SpecJson::Obj(obj_set(pm, bm_key(), SpecJson::Obj(m.billingmediation)))),
        ),
        sp_doc(render_spec(m).unwrap()) == Some(
            SpecJson::Obj(obj_set(pm, bm_key(), SpecJson::Obj(m.billingmediation))),
        ),
{
    lemma_sp_doc_wf(m.payload);
    assert(wf_obj(pm));
    lemma_bm_key_raw_ok();
    lemma_obj_set_wf(pm, bm_key(), SpecJson::Obj(m.billingmediation));
    let combined = SpecJson::Obj(obj_set(pm, bm_key(), SpecJson::Obj(m.billingmediation)));
    assert(wf_json(combined));
    lemma_parse_ser(combined);
}

} // verus!
