//! The record data model: one structured log event and its optional
//! tree-shaped payload.
//!
//! Text is carried as UTF-8 bytes. A payload number carries its decimal
//! text verbatim (for example `5.0`), so that encoding is lossless and
//! needs no floating-point arithmetic.

use crate::level::Level;
use vstd::prelude::*;

verus! {

/// A structured payload value: a tree of nulls, booleans, numbers,
/// strings, arrays and ordered key-to-value objects.
#[derive(Debug, PartialEq, Eq)]
pub enum Json {
    Null,
    Bool(bool),
    /// The number's decimal text, carried verbatim.
    Num(Vec<u8>),
    Str(Vec<u8>),
    Arr(Vec<Json>),
    Obj(Vec<(Vec<u8>, Json)>),
}

/// The mathematical shape of a payload value.
pub enum JsonView {
    Null,
    Bool(bool),
    Num(Seq<u8>),
    Str(Seq<u8>),
    Arr(Seq<JsonView>),
    Obj(Seq<(Seq<u8>, JsonView)>),
}

/// The abstract value of a payload tree.
pub open spec fn json_model(j: Json) -> JsonView
    decreases j, 0int,
{
    match j {
        Json::Null => JsonView::Null,
        Json::Bool(b) => JsonView::Bool(b),
        Json::Num(t) => JsonView::Num(t@),
        Json::Str(s) => JsonView::Str(s@),
        Json::Arr(v) => JsonView::Arr(json_list_model(v@)),
        Json::Obj(v) => JsonView::Obj(json_pairs_model(v@)),
    }
}

/// The abstract values of a sequence of payload trees.
pub open spec fn json_list_model(s: Seq<Json>) -> Seq<JsonView>
    decreases s, 1int,
{
    if s.len() == 0 {
        Seq::empty()
    } else {
        Seq::empty().push(json_model(s[0])) + json_list_model(s.subrange(1, s.len() as int))
    }
}

/// The abstract values of a sequence of key-value pairs.
pub open spec fn json_pairs_model(s: Seq<(Vec<u8>, Json)>) -> Seq<(Seq<u8>, JsonView)>
    decreases s, 1int,
{
    if s.len() == 0 {
        Seq::empty()
    } else {
        Seq::empty().push((s[0].0@, json_model(s[0].1))) + json_pairs_model(
            s.subrange(1, s.len() as int),
        )
    }
}

/// A byte of JSON number text: a digit, sign, decimal point or
/// exponent mark.
pub open spec fn is_number_byte(b: u8) -> bool {
    (0x30 <= b <= 0x39) || b == 0x2d || b == 0x2b || b == 0x2e || b == 0x65 || b == 0x45
}

/// Valid number text: nonempty, made of number bytes only, and
/// starting with a digit or a minus sign.
pub open spec fn is_number_text(t: Seq<u8>) -> bool {
    &&& t.len() > 0
    &&& (forall|i: int| 0 <= i < t.len() ==> is_number_byte(#[trigger] t[i]))
    &&& (t[0] == 0x2d || (0x30 <= t[0] <= 0x39))
}

/// Well-formed payload value: every number in the tree carries valid
/// number text.
pub open spec fn json_wf(m: JsonView) -> bool
    decreases m, 0int,
{
    match m {
        JsonView::Null => true,
        JsonView::Bool(_) => true,
        JsonView::Num(t) => is_number_text(t),
        JsonView::Str(_) => true,
        JsonView::Arr(elems) => json_list_wf(elems),
        JsonView::Obj(members) => json_pairs_wf(members),
    }
}

/// Every element of the sequence is well formed.
pub open spec fn json_list_wf(s: Seq<JsonView>) -> bool
    decreases s, 1int,
{
    if s.len() == 0 {
        true
    } else {
        json_wf(s[0]) && json_list_wf(s.subrange(1, s.len() as int))
    }
}

/// Every value of the pair sequence is well formed.
pub open spec fn json_pairs_wf(s: Seq<(Seq<u8>, JsonView)>) -> bool
    decreases s, 1int,
{
    if s.len() == 0 {
        true
    } else {
        json_wf(s[0].1) && json_pairs_wf(s.subrange(1, s.len() as int))
    }
}

/// One log event. `message` is the plain-text message; `value` is the
/// optional structured payload; `file`, `module` and `line` locate the
/// emitting call site.
#[derive(Debug, PartialEq, Eq)]
pub struct Record {
    pub value: Option<Json>,
    pub message: Vec<u8>,
    pub level: Level,
    pub file: Option<Vec<u8>>,
    pub module: Option<Vec<u8>>,
    pub line: Option<u32>,
}

/// The mathematical shape of a record.
pub struct RecordView {
    pub value: Option<JsonView>,
    pub message: Seq<u8>,
    pub level: Level,
    pub file: Option<Seq<u8>>,
    pub module: Option<Seq<u8>>,
    pub line: Option<u32>,
}

/// The abstract value of a record.
pub open spec fn record_model(r: Record) -> RecordView {
    RecordView {
        value: match r.value {
            Option::Some(j) => Option::Some(json_model(j)),
            Option::None => Option::None,
        },
        message: r.message@,
        level: r.level,
        file: match r.file {
            Option::Some(f) => Option::Some(f@),
            Option::None => Option::None,
        },
        module: match r.module {
            Option::Some(m) => Option::Some(m@),
            Option::None => Option::None,
        },
        line: r.line,
    }
}

/// Well-formed record: the payload, when present, is well formed and
/// is not a bare null. An absent payload is the canonical wire form of
/// "no structured data", so a bare null payload is represented by
/// `value == None`.
pub open spec fn record_wf(m: RecordView) -> bool {
    match m.value {
        Option::Some(v) => json_wf(v) && !(v is Null),
        Option::None => true,
    }
}

} // verus!
