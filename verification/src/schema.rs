//! The typed envelope model and its wire schema.
//!
//! An [`Root`] holds an ordered sequence of change-data-capture records.
//! The spec functions here define, over the generic tree of `json`, both
//! directions of the schema: `env_tree` gives the canonical tree of an
//! envelope, and `dec_env` validates an arbitrary tree and yields the typed
//! model or the exact error the decoder owes.

use vstd::prelude::*;
use crate::json::{JTree, Json, jviews, jmviews, valid_str, wf_tree, wf_items, wf_members};
use vstd::string::StringExecFns;
use vstd::string::StrSliceExecFns;

verus! {

/// The kind of change a record describes.
#[derive(Debug, Clone, Copy, PartialEq, Eq, Structural)]
pub enum EventName {
    Insert,
    Modify,
    Remove,
}

/// A typed attribute value, tagged as on the wire.
#[derive(Debug)]
pub enum AttributeValue {
    S(String),
    N(String),
    B(String),
    Bool(bool),
    Null,
    M(AttributeMap),
    L(Vec<AttributeValue>),
    Ss(Vec<String>),
    Ns(Vec<String>),
    Bs(Vec<String>),
}

/// An ordered mapping from attribute name to attribute value.
#[derive(Debug)]
pub struct AttributeMap {
    pub entries: Vec<(String, AttributeValue)>,
}

/// The change carried by one record.
#[derive(Debug)]
pub struct Dynamodb {
    pub approximate_creation_time: i64,
    pub keys: Keys,
    pub new_image: Option<NewImage>,
    pub sequence_number: String,
    pub size_bytes: i64,
    pub stream_view_type: String,
}

/// One change-data-capture record.
#[derive(Debug)]
pub struct Record {
    pub event_id: String,
    pub event_name: EventName,
    pub event_version: String,
    pub event_source: String,
    pub aws_region: String,
    pub change: Dynamodb,
    pub source_arn: String,
}

/// The top-level payload: an ordered sequence of records.
#[derive(Debug)]
pub struct Root {
    pub records: Vec<Record>,
}

/// The key attributes of a record: the subset of attributes that identify
/// the changed row.
#[derive(Debug)]
pub struct Keys {
    pub map: AttributeMap,
}

/// The full post-change row of a record.
#[derive(Debug)]
pub struct NewImage {
    pub map: AttributeMap,
}

/// A decode failure.
#[derive(Debug)]
pub enum DecodeError {
    /// The text is not parseable at all.
    Malformed,
    /// A required field is missing or has the wrong type.
    SchemaViolation { field: String, record_index: Option<usize>, reason: String },
    /// A cross-field rule is broken.
    InvariantViolation { reason: String },
}

/// The model of an attribute value.
#[verifier::ext_equal]
pub ghost enum AttrV {
    S(Seq<char>),
    N(Seq<char>),
    B(Seq<char>),
    Bool(bool),
    Null,
    M(Seq<(Seq<char>, AttrV)>),
    L(Seq<AttrV>),
    Ss(Seq<Seq<char>>),
    Ns(Seq<Seq<char>>),
    Bs(Seq<Seq<char>>),
}

/// The model of a change.
#[verifier::ext_equal]
pub ghost struct DynamodbV {
    pub approximate_creation_time: int,
    pub keys: Seq<(Seq<char>, AttrV)>,
    pub new_image: Option<Seq<(Seq<char>, AttrV)>>,
    pub sequence_number: Seq<char>,
    pub size_bytes: int,
    pub stream_view_type: Seq<char>,
}

/// The model of a record.
#[verifier::ext_equal]
pub ghost struct RecordV {
    pub event_id: Seq<char>,
    pub event_name: EventName,
    pub event_version: Seq<char>,
    pub event_source: Seq<char>,
    pub aws_region: Seq<char>,
    pub change: DynamodbV,
    pub source_arn: Seq<char>,
}

/// The model of an envelope.
#[verifier::ext_equal]
pub ghost struct RootV {
    pub records: Seq<RecordV>,
}

/// The model of a decode failure.
#[verifier::ext_equal]
pub ghost enum ErrV {
    Malformed,
    Schema { field: Seq<char>, record_index: Option<int>, reason: Seq<char> },
    Invariant { reason: Seq<char> },
}

impl AttributeValue {
    /// The model of this attribute value.
    pub open spec fn view(self) -> AttrV
        decreases self,
    {
        match self {
            AttributeValue::S(s) => AttrV::S(s@),
            AttributeValue::N(s) => AttrV::N(s@),
            AttributeValue::B(s) => AttrV::B(s@),
            AttributeValue::Bool(b) => AttrV::Bool(b),
            AttributeValue::Null => AttrV::Null,
            AttributeValue::M(m) => AttrV::M(
                Seq::new(
                    m.entries@.len(),
                    |i: int|
                        if 0 <= i < m.entries@.len() {
                            (m.entries@[i].0@, m.entries@[i].1.view())
                        } else {
                            (Seq::empty(), AttrV::Null)
                        },
                ),
            ),
            AttributeValue::L(l) => AttrV::L(
                Seq::new(
                    l@.len(),
                    |i: int|
                        if 0 <= i < l@.len() {
                            l@[i].view()
                        } else {
                            AttrV::Null
                        },
                ),
            ),
            AttributeValue::Ss(v) => AttrV::Ss(Seq::new(v@.len(), |i: int| v@[i]@)),
            AttributeValue::Ns(v) => AttrV::Ns(Seq::new(v@.len(), |i: int| v@[i]@)),
            AttributeValue::Bs(v) => AttrV::Bs(Seq::new(v@.len(), |i: int| v@[i]@)),
        }
    }
}

impl AttributeMap {
    /// The model of this map: its name/value pairs in order.
    pub open spec fn view(self) -> Seq<(Seq<char>, AttrV)> {
        Seq::new(
            self.entries@.len(),
            |i: int|
                if 0 <= i < self.entries@.len() {
                    (self.entries@[i].0@, self.entries@[i].1@)
                } else {
                    (Seq::empty(), AttrV::Null)
                },
        )
    }
}

impl Dynamodb {
    /// The model of this change.
    pub open spec fn view(self) -> DynamodbV {
        DynamodbV {
            approximate_creation_time: self.approximate_creation_time as int,
            keys: self.keys.map@,
            new_image: match self.new_image {
                Some(m) => Some(m.map@),
                None => None,
            },
            sequence_number: self.sequence_number@,
            size_bytes: self.size_bytes as int,
            stream_view_type: self.stream_view_type@,
        }
    }
}

impl Record {
    /// The model of this record.
    pub open spec fn view(self) -> RecordV {
        RecordV {
            event_id: self.event_id@,
            event_name: self.event_name,
            event_version: self.event_version@,
            event_source: self.event_source@,
            aws_region: self.aws_region@,
            change: self.change@,
            source_arn: self.source_arn@,
        }
    }
}

impl Root {
    /// The model of this envelope.
    pub open spec fn view(self) -> RootV {
        RootV {
            records: Seq::new(
                self.records@.len(),
                |i: int|
                    if 0 <= i < self.records@.len() {
                        self.records@[i]@
                    } else {
                        self.records@[0]@
                    },
            ),
        }
    }
}

impl DecodeError {
    /// The model of this failure.
    pub open spec fn view(self) -> ErrV {
        match self {
            DecodeError::Malformed => ErrV::Malformed,
            DecodeError::SchemaViolation { field, record_index, reason } => ErrV::Schema {
                field: field@,
                record_index: match record_index {
                    Some(i) => Some(i as int),
                    None => None,
                },
                reason: reason@,
            },
            DecodeError::InvariantViolation { reason } => ErrV::Invariant { reason: reason@ },
        }
    }
}

/// The wire name of an event kind.
pub open spec fn event_name_chars(n: EventName) -> Seq<char> {
    match n {
        EventName::Insert => "INSERT"@,
        EventName::Modify => "MODIFY"@,
        EventName::Remove => "REMOVE"@,
    }
}

/// Whether the map model holds a pair with the given name.
pub open spec fn has_name(m: Seq<(Seq<char>, AttrV)>, name: Seq<char>) -> bool {
    exists|i: int| 0 <= i < m.len() && #[trigger] m[i].0 == name
}

/// Well-formed attribute values: strings hold real characters, and nested
/// maps and lists are well formed throughout.
pub open spec fn wf_attr(a: AttrV) -> bool
    decreases a, 0int,
{
    match a {
        AttrV::S(s) => valid_str(s),
        AttrV::N(s) => valid_str(s),
        AttrV::B(s) => valid_str(s),
        AttrV::Bool(_) => true,
        AttrV::Null => true,
        AttrV::M(m) => wf_amap(m),
        AttrV::L(l) => wf_alist(l),
        AttrV::Ss(v) => wf_strs(v),
        AttrV::Ns(v) => wf_strs(v),
        AttrV::Bs(v) => wf_strs(v),
    }
}

/// Well-formed attribute maps: real names, well-formed values.
pub open spec fn wf_amap(m: Seq<(Seq<char>, AttrV)>) -> bool
    decreases m, 1int,
{
    forall|i: int| 0 <= i < m.len() ==> wf_attr(#[trigger] m[i].1) && valid_str(m[i].0)
}

/// Well-formed list attributes.
pub open spec fn wf_alist(l: Seq<AttrV>) -> bool
    decreases l, 1int,
{
    forall|i: int| 0 <= i < l.len() ==> wf_attr(#[trigger] l[i])
}

/// Well-formed string sets.
pub open spec fn wf_strs(v: Seq<Seq<char>>) -> bool {
    forall|i: int| 0 <= i < v.len() ==> valid_str(#[trigger] v[i])
}

/// Well-formed changes: machine-range integers, a non-negative size, and
/// well-formed attribute maps.
pub open spec fn wf_change_fields(c: DynamodbV) -> bool {
    &&& i64::MIN <= c.approximate_creation_time <= i64::MAX
    &&& i64::MIN <= c.size_bytes <= i64::MAX
    &&& wf_amap(c.keys)
    &&& match c.new_image {
        Some(m) => wf_amap(m),
        None => true,
    }
    &&& valid_str(c.sequence_number)
    &&& valid_str(c.stream_view_type)
}

pub open spec fn wf_change(c: DynamodbV) -> bool {
    &&& wf_change_fields(c)
    &&& 0 <= c.size_bytes
}

/// Well-formed records: the change is well formed, the new image is present
/// exactly on inserts and modifies, and every key attribute name appears in
/// the new image when one is present.
pub open spec fn wf_record_fields(r: RecordV) -> bool {
    &&& wf_change_fields(r.change)
    &&& valid_str(r.event_id)
    &&& valid_str(r.event_version)
    &&& valid_str(r.event_source)
    &&& valid_str(r.aws_region)
    &&& valid_str(r.source_arn)
}

pub open spec fn wf_record(r: RecordV) -> bool {
    &&& wf_record_fields(r)
    &&& 0 <= r.change.size_bytes
    &&& (r.change.new_image is Some <==> r.event_name != EventName::Remove)
    &&& match r.change.new_image {
        Some(img) => forall|i: int|
            0 <= i < r.change.keys.len() ==> has_name(img, #[trigger] r.change.keys[i].0),
        None => true,
    }
}

/// Well-formed envelopes.
pub open spec fn wf_env(e: RootV) -> bool {
    forall|i: int| 0 <= i < e.records.len() ==> wf_record(#[trigger] e.records[i])
}

/// The canonical tree of an attribute value.
pub open spec fn attr_tree(a: AttrV) -> JTree
    decreases a,
{
    match a {
        AttrV::S(s) => JTree::Obj(seq![("S"@, JTree::Str(s))]),
        AttrV::N(s) => JTree::Obj(seq![("N"@, JTree::Str(s))]),
        AttrV::B(s) => JTree::Obj(seq![("B"@, JTree::Str(s))]),
        AttrV::Bool(b) => JTree::Obj(seq![("BOOL"@, JTree::Bool(b))]),
        AttrV::Null => JTree::Obj(seq![("NULL"@, JTree::Bool(true))]),
        AttrV::M(m) => JTree::Obj(seq![("M"@, JTree::Obj(amap_tree(m)))]),
        AttrV::L(l) => JTree::Obj(seq![("L"@, JTree::Arr(alist_tree(l)))]),
        AttrV::Ss(v) => JTree::Obj(seq![("SS"@, JTree::Arr(strs_tree(v)))]),
        AttrV::Ns(v) => JTree::Obj(seq![("NS"@, JTree::Arr(strs_tree(v)))]),
        AttrV::Bs(v) => JTree::Obj(seq![("BS"@, JTree::Arr(strs_tree(v)))]),
    }
}

/// The canonical trees of list elements.
pub open spec fn alist_tree(l: Seq<AttrV>) -> Seq<JTree>
    decreases l,
{
    Seq::new(
        l.len(),
        |i: int|
            if 0 <= i < l.len() {
                attr_tree(l[i])
            } else {
                JTree::Null
            },
    )
}

/// The canonical trees of a string set.
pub open spec fn strs_tree(v: Seq<Seq<char>>) -> Seq<JTree> {
    Seq::new(v.len(), |i: int| JTree::Str(v[i]))
}

/// The canonical members of an attribute map.
pub open spec fn amap_tree(m: Seq<(Seq<char>, AttrV)>) -> Seq<(Seq<char>, JTree)>
    decreases m,
{
    Seq::new(
        m.len(),
        |i: int|
            if 0 <= i < m.len() {
                (m[i].0, attr_tree(m[i].1))
            } else {
                (Seq::empty(), JTree::Null)
            },
    )
}

/// The canonical members of a change.
pub open spec fn change_tree(c: DynamodbV) -> Seq<(Seq<char>, JTree)> {
    seq![
        ("ApproximateCreationDateTime"@, JTree::Int(c.approximate_creation_time)),
        ("Keys"@, JTree::Obj(amap_tree(c.keys))),
    ] + (match c.new_image {
        Some(m) => seq![("NewImage"@, JTree::Obj(amap_tree(m)))],
        None => Seq::empty(),
    }) + seq![
        ("SequenceNumber"@, JTree::Str(c.sequence_number)),
        ("SizeBytes"@, JTree::Int(c.size_bytes)),
        ("StreamViewType"@, JTree::Str(c.stream_view_type)),
    ]
}

/// The canonical tree of a record.
pub open spec fn record_tree(r: RecordV) -> JTree {
    JTree::Obj(
        seq![
            ("eventID"@, JTree::Str(r.event_id)),
            ("eventName"@, JTree::Str(event_name_chars(r.event_name))),
            ("eventVersion"@, JTree::Str(r.event_version)),
            ("eventSource"@, JTree::Str(r.event_source)),
            ("awsRegion"@, JTree::Str(r.aws_region)),
            ("dynamodb"@, JTree::Obj(change_tree(r.change))),
            ("eventSourceARN"@, JTree::Str(r.source_arn)),
        ],
    )
}

/// The canonical tree of an envelope.
pub open spec fn env_tree(e: RootV) -> JTree {
    JTree::Obj(seq![("Records"@, JTree::Arr(recs_tree(e.records)))])
}

/// The canonical trees of a sequence of records.
pub open spec fn recs_tree(rs: Seq<RecordV>) -> Seq<JTree> {
    Seq::new(
        rs.len(),
        |i: int|
            if 0 <= i < rs.len() {
                record_tree(rs[i])
            } else {
                JTree::Null
            },
    )
}

/// The first value held under the given name, if any.
pub open spec fn lookup(ms: Seq<(Seq<char>, JTree)>, k: Seq<char>) -> Option<JTree>
    decreases ms.len(),
{
    if ms.len() == 0 {
        None
    } else if ms[0].0 == k {
        Some(ms[0].1)
    } else {
        lookup(ms.skip(1), k)
    }
}

/// A schema failure at the given field of the given record.
pub open spec fn schema_err(field: Seq<char>, idx: int, reason: Seq<char>) -> ErrV {
    ErrV::Schema { field: field, record_index: Some(idx), reason: reason }
}

/// Validates one attribute value.
pub open spec fn dec_attr(t: JTree, idx: int) -> Result<AttrV, ErrV>
    decreases t,
{
    match t {
        JTree::Obj(ms) => {
            if ms.len() != 1 {
                Err(schema_err("AttributeValue"@, idx, "not exactly one variant key"@))
            } else {
                let k = ms[0].0;
                let v = ms[0].1;
                if k == "S"@ {
                    match v {
                        JTree::Str(s) => Ok(AttrV::S(s)),
                        _ => Err(schema_err("S"@, idx, "not a string"@)),
                    }
                } else if k == "N"@ {
                    match v {
                        JTree::Str(s) => Ok(AttrV::N(s)),
                        _ => Err(schema_err("N"@, idx, "not a string"@)),
                    }
                } else if k == "B"@ {
                    match v {
                        JTree::Str(s) => Ok(AttrV::B(s)),
                        _ => Err(schema_err("B"@, idx, "not a string"@)),
                    }
                } else if k == "BOOL"@ {
                    match v {
                        JTree::Bool(b) => Ok(AttrV::Bool(b)),
                        _ => Err(schema_err("BOOL"@, idx, "not a boolean"@)),
                    }
                } else if k == "NULL"@ {
                    if v == JTree::Bool(true) {
                        Ok(AttrV::Null)
                    } else {
                        Err(schema_err("NULL"@, idx, "not the boolean true"@))
                    }
                } else if k == "M"@ {
                    match v {
                        JTree::Obj(inner) => match dec_amap(inner, idx) {
                            Ok(m) => Ok(AttrV::M(m)),
                            Err(e) => Err(e),
                        },
                        _ => Err(schema_err("M"@, idx, "not an object"@)),
                    }
                } else if k == "L"@ {
                    match v {
                        JTree::Arr(ts) => match dec_attr_list(ts, idx) {
                            Ok(l) => Ok(AttrV::L(l)),
                            Err(e) => Err(e),
                        },
                        _ => Err(schema_err("L"@, idx, "not an array"@)),
                    }
                } else if k == "SS"@ {
                    match v {
                        JTree::Arr(ts) => match dec_str_list(ts, idx, "SS"@) {
                            Ok(l) => Ok(AttrV::Ss(l)),
                            Err(e) => Err(e),
                        },
                        _ => Err(schema_err("SS"@, idx, "not an array"@)),
                    }
                } else if k == "NS"@ {
                    match v {
                        JTree::Arr(ts) => match dec_str_list(ts, idx, "NS"@) {
                            Ok(l) => Ok(AttrV::Ns(l)),
                            Err(e) => Err(e),
                        },
                        _ => Err(schema_err("NS"@, idx, "not an array"@)),
                    }
                } else if k == "BS"@ {
                    match v {
                        JTree::Arr(ts) => match dec_str_list(ts, idx, "BS"@) {
                            Ok(l) => Ok(AttrV::Bs(l)),
                            Err(e) => Err(e),
                        },
                        _ => Err(schema_err("BS"@, idx, "not an array"@)),
                    }
                } else {
                    Err(schema_err(k, idx, "unknown variant key"@))
                }
            }
        },
        _ => Err(schema_err("AttributeValue"@, idx, "not an object"@)),
    }
}

/// Validates the members of an attribute map.
pub open spec fn dec_amap(ms: Seq<(Seq<char>, JTree)>, idx: int) -> Result<
    Seq<(Seq<char>, AttrV)>,
    ErrV,
>
    decreases ms,
{
    if ms.len() == 0 {
        Ok(Seq::empty())
    } else {
        match dec_attr(ms[0].1, idx) {
            Err(e) => Err(e),
            Ok(a) => match dec_amap(ms.skip(1), idx) {
                Err(e) => Err(e),
                Ok(rest) => Ok(seq![(ms[0].0, a)] + rest),
            },
        }
    }
}

/// Validates the elements of a list attribute.
pub open spec fn dec_attr_list(ts: Seq<JTree>, idx: int) -> Result<Seq<AttrV>, ErrV>
    decreases ts,
{
    if ts.len() == 0 {
        Ok(Seq::empty())
    } else {
        match dec_attr(ts[0], idx) {
            Err(e) => Err(e),
            Ok(a) => match dec_attr_list(ts.skip(1), idx) {
                Err(e) => Err(e),
                Ok(rest) => Ok(seq![a] + rest),
            },
        }
    }
}

/// Validates the elements of a string-set attribute.
pub open spec fn dec_str_list(ts: Seq<JTree>, idx: int, field: Seq<char>) -> Result<
    Seq<Seq<char>>,
    ErrV,
>
    decreases ts.len(),
{
    if ts.len() == 0 {
        Ok(Seq::empty())
    } else {
        match ts[0] {
            JTree::Str(s) => match dec_str_list(ts.skip(1), idx, field) {
                Err(e) => Err(e),
                Ok(rest) => Ok(seq![s] + rest),
            },
            _ => Err(schema_err(field, idx, "element is not a string"@)),
        }
    }
}

/// Validates the `dynamodb` object of a record.
pub open spec fn dec_change(t: JTree, idx: int) -> Result<DynamodbV, ErrV> {
    match t {
        JTree::Obj(ms) => {
            let act = match lookup(ms, "ApproximateCreationDateTime"@) {
                None => Err(schema_err("ApproximateCreationDateTime"@, idx, "missing"@)),
                Some(JTree::Int(n)) => Ok(n),
                Some(_) => Err(schema_err("ApproximateCreationDateTime"@, idx, "not an integer"@)),
            };
            let keys = match lookup(ms, "Keys"@) {
                None => Err(schema_err("Keys"@, idx, "missing"@)),
                Some(JTree::Obj(inner)) => dec_amap(inner, idx),
                Some(_) => Err(schema_err("Keys"@, idx, "not an object"@)),
            };
            let image = match lookup(ms, "NewImage"@) {
                None => Ok(None),
                Some(JTree::Obj(inner)) => match dec_amap(inner, idx) {
                    Ok(m) => Ok(Some(m)),
                    Err(e) => Err(e),
                },
                Some(_) => Err(schema_err("NewImage"@, idx, "not an object"@)),
            };
            let sn = match lookup(ms, "SequenceNumber"@) {
                None => Err(schema_err("SequenceNumber"@, idx, "missing"@)),
                Some(JTree::Str(s)) => Ok(s),
                Some(_) => Err(schema_err("SequenceNumber"@, idx, "not a string"@)),
            };
            let sb = match lookup(ms, "SizeBytes"@) {
                None => Err(schema_err("SizeBytes"@, idx, "missing"@)),
                Some(JTree::Int(n)) => Ok(n),
                Some(_) => Err(schema_err("SizeBytes"@, idx, "not an integer"@)),
            };
            let svt = match lookup(ms, "StreamViewType"@) {
                None => Err(schema_err("StreamViewType"@, idx, "missing"@)),
                Some(JTree::Str(s)) => Ok(s),
                Some(_) => Err(schema_err("StreamViewType"@, idx, "not a string"@)),
            };
            if act is Err {
                Err(act->Err_0)
            } else if keys is Err {
                Err(keys->Err_0)
            } else if image is Err {
                Err(image->Err_0)
            } else if sn is Err {
                Err(sn->Err_0)
            } else if sb is Err {
                Err(sb->Err_0)
            } else if svt is Err {
                Err(svt->Err_0)
            } else {
                Ok(
                    DynamodbV {
                        approximate_creation_time: act->Ok_0,
                        keys: keys->Ok_0,
                        new_image: image->Ok_0,
                        sequence_number: sn->Ok_0,
                        size_bytes: sb->Ok_0,
                        stream_view_type: svt->Ok_0,
                    },
                )
            }
        },
        _ => Err(schema_err("dynamodb"@, idx, "not an object"@)),
    }
}

/// The event kind named by the wire string, if recognized.
pub open spec fn event_name_of(s: Seq<char>) -> Option<EventName> {
    if s == "INSERT"@ {
        Some(EventName::Insert)
    } else if s == "MODIFY"@ {
        Some(EventName::Modify)
    } else if s == "REMOVE"@ {
        Some(EventName::Remove)
    } else {
        None
    }
}

/// Whether every key attribute name appears in the new image, when one is
/// present.
pub open spec fn keys_subset_ok(c: DynamodbV) -> bool {
    match c.new_image {
        Some(img) => forall|i: int|
            0 <= i < c.keys.len() ==> has_name(img, #[trigger] c.keys[i].0),
        None => true,
    }
}

/// Validates one record, including the cross-field rules.
pub open spec fn dec_record(t: JTree, idx: int) -> Result<RecordV, ErrV> {
    match t {
        JTree::Obj(ms) => {
            let eid = match lookup(ms, "eventID"@) {
                None => Err(schema_err("eventID"@, idx, "missing"@)),
                Some(JTree::Str(s)) => Ok(s),
                Some(_) => Err(schema_err("eventID"@, idx, "not a string"@)),
            };
            let en = match lookup(ms, "eventName"@) {
                None => Err(schema_err("eventName"@, idx, "missing"@)),
                Some(JTree::Str(s)) => match event_name_of(s) {
                    Some(n) => Ok(n),
                    None => Err(schema_err("eventName"@, idx, "unknown event name"@)),
                },
                Some(_) => Err(schema_err("eventName"@, idx, "not a string"@)),
            };
            let ev = match lookup(ms, "eventVersion"@) {
                None => Err(schema_err("eventVersion"@, idx, "missing"@)),
                Some(JTree::Str(s)) => Ok(s),
                Some(_) => Err(schema_err("eventVersion"@, idx, "not a string"@)),
            };
            let es = match lookup(ms, "eventSource"@) {
                None => Err(schema_err("eventSource"@, idx, "missing"@)),
                Some(JTree::Str(s)) => Ok(s),
                Some(_) => Err(schema_err("eventSource"@, idx, "not a string"@)),
            };
            let ar = match lookup(ms, "awsRegion"@) {
                None => Err(schema_err("awsRegion"@, idx, "missing"@)),
                Some(JTree::Str(s)) => Ok(s),
                Some(_) => Err(schema_err("awsRegion"@, idx, "not a string"@)),
            };
            let ch = match lookup(ms, "dynamodb"@) {
                None => Err(schema_err("dynamodb"@, idx, "missing"@)),
                Some(inner) => dec_change(inner, idx),
            };
            let arn = match lookup(ms, "eventSourceARN"@) {
                None => Err(schema_err("eventSourceARN"@, idx, "missing"@)),
                Some(JTree::Str(s)) => Ok(s),
                Some(_) => Err(schema_err("eventSourceARN"@, idx, "not a string"@)),
            };
            if eid is Err {
                Err(eid->Err_0)
            } else if en is Err {
                Err(en->Err_0)
            } else if ev is Err {
                Err(ev->Err_0)
            } else if es is Err {
                Err(es->Err_0)
            } else if ar is Err {
                Err(ar->Err_0)
            } else if ch is Err {
                Err(ch->Err_0)
            } else if arn is Err {
                Err(arn->Err_0)
            } else {
                let c = ch->Ok_0;
                let name = en->Ok_0;
                if (c.new_image is Some) != (name != EventName::Remove) {
                    if name == EventName::Remove {
                        Err(
                            ErrV::Invariant {
                                reason: "new image present on a remove event"@,
                            },
                        )
                    } else {
                        Err(
                            ErrV::Invariant {
                                reason: "new image missing on an insert or modify event"@,
                            },
                        )
                    }
                } else if c.size_bytes < 0 {
                    Err(ErrV::Invariant { reason: "size in bytes is negative"@ })
                } else if !keys_subset_ok(c) {
                    Err(ErrV::Invariant { reason: "key attribute missing from new image"@ })
                } else {
                    Ok(
                        RecordV {
                            event_id: eid->Ok_0,
                            event_name: name,
                            event_version: ev->Ok_0,
                            event_source: es->Ok_0,
                            aws_region: ar->Ok_0,
                            change: c,
                            source_arn: arn->Ok_0,
                        },
                    )
                }
            }
        },
        _ => Err(schema_err("record"@, idx, "not an object"@)),
    }
}

/// Validates a sequence of records, numbering them from `base`.
pub open spec fn dec_records(ts: Seq<JTree>, base: int) -> Result<Seq<RecordV>, ErrV>
    decreases ts.len(),
{
    if ts.len() == 0 {
        Ok(Seq::empty())
    } else {
        match dec_record(ts[0], base) {
            Err(e) => Err(e),
            Ok(r) => match dec_records(ts.skip(1), base + 1) {
                Err(e) => Err(e),
                Ok(rest) => Ok(seq![r] + rest),
            },
        }
    }
}

/// Validates a whole tree as an envelope.
pub open spec fn dec_env(t: JTree) -> Result<RootV, ErrV> {
    match t {
        JTree::Obj(ms) => match lookup(ms, "Records"@) {
            Some(JTree::Arr(ts)) => match dec_records(ts, 0) {
                Ok(rs) => Ok(RootV { records: rs }),
                Err(e) => Err(e),
            },
            _ => Err(
                ErrV::Schema {
                    field: "Records"@,
                    record_index: None,
                    reason: "missing or not a sequence"@,
                },
            ),
        },
        _ => Err(
            ErrV::Schema {
                field: "Records"@,
                record_index: None,
                reason: "missing or not a sequence"@,
            },
        ),
    }
}

/// Whether two string slices hold the same characters.
pub fn str_eq(a: &str, b: &str) -> (r: bool)
    ensures
        r == (a@ == b@),
{
    let na: usize = a.unicode_len();
    let nb: usize = b.unicode_len();
    if na != nb {
        return false;
    }
    let mut i: usize = 0;
    while i < na
        invariant
            na == a@.len(),
            na == b@.len(),
            0 <= i <= na,
            forall|k: int| 0 <= k < i ==> a@[k] == b@[k],
        decreases na - i,
    {
        if a.get_char(i) != b.get_char(i) {
            return false;
        }
        i = i + 1;
    }
    proof {
        assert(a@ =~= b@);
    }
    true
}

/// A schema violation at the given field of the given record.
fn se(f: &str, idx: usize, r: &str) -> (e: DecodeError)
    ensures
        e@ == schema_err(f@, idx as int, r@),
{
    DecodeError::SchemaViolation {
        field: String::from_str(f),
        record_index: Some(idx),
        reason: String::from_str(r),
    }
}

/// The first value held under the given name, returning what `lookup` says.
fn obj_get<'a>(ms: &'a Vec<(String, Json)>, k: &str) -> (r: Option<&'a Json>)
    ensures
        match r {
            Some(j) => lookup(jmviews(ms@), k@) == Some(j@),
            None => lookup(jmviews(ms@), k@) is None,
        },
{
    let mut i: usize = 0;
    proof {
        assert(jmviews(ms@).skip(0) =~= jmviews(ms@));
    }
    while i < ms.len()
        invariant
            0 <= i <= ms@.len(),
            lookup(jmviews(ms@), k@) == lookup(jmviews(ms@).skip(i as int), k@),
        decreases ms@.len() - i,
    {
        let hit: bool = str_eq(ms[i].0.as_str(), k);
        proof {
            let tail = jmviews(ms@).skip(i as int);
            assert(tail[0] == jmviews(ms@)[i as int]);
            assert(jmviews(ms@)[i as int] == (ms@[i as int].0@, ms@[i as int].1@));
            assert(tail.skip(1) =~= jmviews(ms@).skip(i as int + 1));
        }
        if hit {
            return Some(&ms[i].1);
        }
        i = i + 1;
    }
    proof {
        assert(jmviews(ms@).skip(ms@.len() as int) =~= Seq::<(Seq<char>, JTree)>::empty());
    }
    None
}

/// Validates one attribute value, returning what `dec_attr` says.
fn j_to_attr(j: &Json, idx: usize) -> (r: Result<AttributeValue, DecodeError>)
    ensures
        match r {
            Ok(a) => dec_attr(j@, idx as int) == Ok::<AttrV, ErrV>(a@),
            Err(e) => dec_attr(j@, idx as int) == Err::<AttrV, ErrV>(e@),
        },
    decreases *j,
{
    match j {
        Json::Obj(ms) => {
            proof {
                assert(j@->Obj_0 == jmviews(ms@));
            }
            if ms.len() != 1 {
                Err(se("AttributeValue", idx, "not exactly one variant key"))
            } else {
                let key: &String = &ms[0].0;
                let v: &Json = &ms[0].1;
                proof {
                    assert(jmviews(ms@)[0] == (ms@[0].0@, ms@[0].1@));
                }
                if str_eq(key.as_str(), "S") {
                    match v {
                        Json::Str(s) => Ok(AttributeValue::S(s.clone())),
                        _ => Err(se("S", idx, "not a string")),
                    }
                } else if str_eq(key.as_str(), "N") {
                    match v {
                        Json::Str(s) => Ok(AttributeValue::N(s.clone())),
                        _ => Err(se("N", idx, "not a string")),
                    }
                } else if str_eq(key.as_str(), "B") {
                    match v {
                        Json::Str(s) => Ok(AttributeValue::B(s.clone())),
                        _ => Err(se("B", idx, "not a string")),
                    }
                } else if str_eq(key.as_str(), "BOOL") {
                    match v {
                        Json::Bool(b) => Ok(AttributeValue::Bool(*b)),
                        _ => Err(se("BOOL", idx, "not a boolean")),
                    }
                } else if str_eq(key.as_str(), "NULL") {
                    match v {
                        Json::Bool(b) => if *b {
                            Ok(AttributeValue::Null)
                        } else {
                            Err(se("NULL", idx, "not the boolean true"))
                        },
                        _ => Err(se("NULL", idx, "not the boolean true")),
                    }
                } else if str_eq(key.as_str(), "M") {
                    match v {
                        Json::Obj(inner) => {
                            proof {
                                assert(v@->Obj_0 == jmviews(inner@));
                            }
                            match j_to_amap(inner.as_slice(), idx) {
                                Ok(m) => {
                                    let a = AttributeValue::M(m);
                                    proof {
                                        assert(a@->M_0 =~= a->M_0@);
                                    }
                                    Ok(a)
                                },
                                Err(e) => Err(e),
                            }
                        },
                        _ => Err(se("M", idx, "not an object")),
                    }
                } else if str_eq(key.as_str(), "L") {
                    match v {
                        Json::Arr(ts) => {
                            proof {
                                assert(v@->Arr_0 == jviews(ts@));
                            }
                            match j_to_attr_list(ts.as_slice(), idx) {
                                Ok(l) => {
                                    let a = AttributeValue::L(l);
                                    proof {
                                        assert(a@->L_0 =~= Seq::new(
                                            a->L_0@.len(),
                                            |i: int|
                                                if 0 <= i < a->L_0@.len() {
                                                    a->L_0@[i]@
                                                } else {
                                                    AttrV::Null
                                                },
                                        ));
                                    }
                                    Ok(a)
                                },
                                Err(e) => Err(e),
                            }
                        },
                        _ => Err(se("L", idx, "not an array")),
                    }
                } else if str_eq(key.as_str(), "SS") {
                    match v {
                        Json::Arr(ts) => {
                            proof {
                                assert(v@->Arr_0 == jviews(ts@));
                            }
                            match j_to_str_list(ts.as_slice(), idx, "SS") {
                                Ok(l) => Ok(AttributeValue::Ss(l)),
                                Err(e) => Err(e),
                            }
                        },
                        _ => Err(se("SS", idx, "not an array")),
                    }
                } else if str_eq(key.as_str(), "NS") {
                    match v {
                        Json::Arr(ts) => {
                            proof {
                                assert(v@->Arr_0 == jviews(ts@));
                            }
                            match j_to_str_list(ts.as_slice(), idx, "NS") {
                                Ok(l) => Ok(AttributeValue::Ns(l)),
                                Err(e) => Err(e),
                            }
                        },
                        _ => Err(se("NS", idx, "not an array")),
                    }
                } else if str_eq(key.as_str(), "BS") {
                    match v {
                        Json::Arr(ts) => {
                            proof {
                                assert(v@->Arr_0 == jviews(ts@));
                            }
                            match j_to_str_list(ts.as_slice(), idx, "BS") {
                                Ok(l) => Ok(AttributeValue::Bs(l)),
                                Err(e) => Err(e),
                            }
                        },
                        _ => Err(se("BS", idx, "not an array")),
                    }
                } else {
                    let e = DecodeError::SchemaViolation {
                        field: key.clone(),
                        record_index: Some(idx),
                        reason: String::from_str("unknown variant key"),
                    };
                    Err(e)
                }
            }
        },
        _ => Err(se("AttributeValue", idx, "not an object")),
    }
}

/// Validates attribute-map members, returning what `dec_amap` says.
fn j_to_amap(ms: &[(String, Json)], idx: usize) -> (r: Result<AttributeMap, DecodeError>)
    ensures
        match r {
            Ok(m) => dec_amap(jmviews(ms@), idx as int) == Ok::<Seq<(Seq<char>, AttrV)>, ErrV>(m@),
            Err(e) => dec_amap(jmviews(ms@), idx as int) == Err::<Seq<(Seq<char>, AttrV)>, ErrV>(
                e@,
            ),
        },
    decreases ms@,
{
    if ms.len() == 0 {
        let m = AttributeMap { entries: Vec::new() };
        proof {
            assert(jmviews(ms@) =~= Seq::<(Seq<char>, JTree)>::empty());
            assert(m@ =~= Seq::<(Seq<char>, AttrV)>::empty());
        }
        Ok(m)
    } else {
        let pair: &(String, Json) = vstd::slice::slice_index_get(ms, 0);
        proof {
            assert(jmviews(ms@)[0] == (ms@[0].0@, ms@[0].1@));
        }
        match j_to_attr(&pair.1, idx) {
            Err(e) => Err(e),
            Ok(a) => {
                let rest: &[(String, Json)] = vstd::slice::slice_subrange(ms, 1, ms.len());
                proof {
                    assert(jmviews(rest@) =~= jmviews(ms@).skip(1));
                }
                match j_to_amap(rest, idx) {
                    Err(e) => Err(e),
                    Ok(mut m) => {
                        let ghost old_m = m@;
                        m.entries.insert(0, (pair.0.clone(), a));
                        proof {
                            assert(m@ =~= seq![(ms@[0].0@, a@)] + old_m);
                        }
                        Ok(m)
                    },
                }
            },
        }
    }
}

/// Validates list elements, returning what `dec_attr_list` says.
fn j_to_attr_list(ts: &[Json], idx: usize) -> (r: Result<Vec<AttributeValue>, DecodeError>)
    ensures
        match r {
            Ok(l) => dec_attr_list(jviews(ts@), idx as int) == Ok::<Seq<AttrV>, ErrV>(
                Seq::new(
                    l@.len(),
                    |i: int|
                        if 0 <= i < l@.len() {
                            l@[i]@
                        } else {
                            AttrV::Null
                        },
                ),
            ),
            Err(e) => dec_attr_list(jviews(ts@), idx as int) == Err::<Seq<AttrV>, ErrV>(e@),
        },
    decreases ts@,
{
    if ts.len() == 0 {
        let l: Vec<AttributeValue> = Vec::new();
        proof {
            assert(jviews(ts@) =~= Seq::<JTree>::empty());
            assert(Seq::new(
                l@.len(),
                |i: int|
                    if 0 <= i < l@.len() {
                        l@[i]@
                    } else {
                        AttrV::Null
                    },
            ) =~= Seq::<AttrV>::empty());
        }
        Ok(l)
    } else {
        proof {
            assert(jviews(ts@)[0] == ts@[0]@);
        }
        match j_to_attr(vstd::slice::slice_index_get(ts, 0), idx) {
            Err(e) => Err(e),
            Ok(a) => {
                let rest: &[Json] = vstd::slice::slice_subrange(ts, 1, ts.len());
                proof {
                    assert(jviews(rest@) =~= jviews(ts@).skip(1));
                }
                match j_to_attr_list(rest, idx) {
                    Err(e) => Err(e),
                    Ok(mut l) => {
                        let ghost old_l = l@;
                        l.insert(0, a);
                        proof {
                            assert(Seq::new(
                                l@.len(),
                                |i: int|
                                    if 0 <= i < l@.len() {
                                        l@[i]@
                                    } else {
                                        AttrV::Null
                                    },
                            ) =~= seq![l@[0]@] + Seq::new(
                                old_l.len(),
                                |i: int|
                                    if 0 <= i < old_l.len() {
                                        old_l[i]@
                                    } else {
                                        AttrV::Null
                                    },
                            ));
                        }
                        Ok(l)
                    },
                }
            },
        }
    }
}

/// Validates string-set elements, returning what `dec_str_list` says.
fn j_to_str_list(ts: &[Json], idx: usize, field: &str) -> (r: Result<Vec<String>, DecodeError>)
    ensures
        match r {
            Ok(l) => dec_str_list(jviews(ts@), idx as int, field@) == Ok::<Seq<Seq<char>>, ErrV>(
                Seq::new(l@.len(), |i: int| l@[i]@),
            ),
            Err(e) => dec_str_list(jviews(ts@), idx as int, field@) == Err::<Seq<Seq<char>>, ErrV>(
                e@,
            ),
        },
    decreases ts@.len(),
{
    if ts.len() == 0 {
        let l: Vec<String> = Vec::new();
        proof {
            assert(jviews(ts@) =~= Seq::<JTree>::empty());
            assert(Seq::new(l@.len(), |i: int| l@[i]@) =~= Seq::<Seq<char>>::empty());
        }
        Ok(l)
    } else {
        proof {
            assert(jviews(ts@)[0] == ts@[0]@);
        }
        match vstd::slice::slice_index_get(ts, 0) {
            Json::Str(s) => {
                let rest: &[Json] = vstd::slice::slice_subrange(ts, 1, ts.len());
                proof {
                    assert(jviews(rest@) =~= jviews(ts@).skip(1));
                }
                match j_to_str_list(rest, idx, field) {
                    Err(e) => Err(e),
                    Ok(mut l) => {
                        let ghost old_l = l@;
                        l.insert(0, s.clone());
                        proof {
                            assert(Seq::new(l@.len(), |i: int| l@[i]@) =~= seq![l@[0]@]
                                + Seq::new(old_l.len(), |i: int| old_l[i]@));
                        }
                        Ok(l)
                    },
                }
            },
            _ => Err(se(field, idx, "element is not a string")),
        }
    }
}

/// Validates the `dynamodb` object, returning what `dec_change` says.
fn j_to_change(j: &Json, idx: usize) -> (r: Result<Dynamodb, DecodeError>)
    ensures
        match r {
            Ok(c) => dec_change(j@, idx as int) == Ok::<DynamodbV, ErrV>(c@),
            Err(e) => dec_change(j@, idx as int) == Err::<DynamodbV, ErrV>(e@),
        },
{
    match j {
        Json::Obj(ms) => {
            proof {
                assert(j@->Obj_0 == jmviews(ms@));
            }
            let act: i64 = match obj_get(ms, "ApproximateCreationDateTime") {
                None => {
                    return Err(se("ApproximateCreationDateTime", idx, "missing"));
                },
                Some(Json::Int(n)) => *n,
                Some(_) => {
                    return Err(se("ApproximateCreationDateTime", idx, "not an integer"));
                },
            };
            let keys: AttributeMap = match obj_get(ms, "Keys") {
                None => {
                    return Err(se("Keys", idx, "missing"));
                },
                Some(jv) => match jv {
                    Json::Obj(inner) => {
                        proof {
                            assert(jv@->Obj_0 == jmviews(inner@));
                        }
                        match j_to_amap(inner.as_slice(), idx) {
                            Ok(m) => m,
                            Err(e) => {
                                return Err(e);
                            },
                        }
                    },
                    _ => {
                        return Err(se("Keys", idx, "not an object"));
                    },
                },
            };
            let image: Option<AttributeMap> = match obj_get(ms, "NewImage") {
                None => None,
                Some(jv) => match jv {
                    Json::Obj(inner) => {
                        proof {
                            assert(jv@->Obj_0 == jmviews(inner@));
                        }
                        match j_to_amap(inner.as_slice(), idx) {
                            Ok(m) => Some(m),
                            Err(e) => {
                                return Err(e);
                            },
                        }
                    },
                    _ => {
                        return Err(se("NewImage", idx, "not an object"));
                    },
                },
            };
            let sn: String = match obj_get(ms, "SequenceNumber") {
                None => {
                    return Err(se("SequenceNumber", idx, "missing"));
                },
                Some(Json::Str(s)) => s.clone(),
                Some(_) => {
                    return Err(se("SequenceNumber", idx, "not a string"));
                },
            };
            let sb: i64 = match obj_get(ms, "SizeBytes") {
                None => {
                    return Err(se("SizeBytes", idx, "missing"));
                },
                Some(Json::Int(n)) => *n,
                Some(_) => {
                    return Err(se("SizeBytes", idx, "not an integer"));
                },
            };
            let svt: String = match obj_get(ms, "StreamViewType") {
                None => {
                    return Err(se("StreamViewType", idx, "missing"));
                },
                Some(Json::Str(s)) => s.clone(),
                Some(_) => {
                    return Err(se("StreamViewType", idx, "not a string"));
                },
            };
            Ok(
                Dynamodb {
                    approximate_creation_time: act,
                    keys: Keys { map: keys },
                    new_image: match image {
                        Some(m) => Some(NewImage { map: m }),
                        None => None,
                    },
                    sequence_number: sn,
                    size_bytes: sb,
                    stream_view_type: svt,
                },
            )
        },
        _ => Err(se("dynamodb", idx, "not an object")),
    }
}

/// Whether the map holds an entry with the given name.
fn amap_has_name(m: &AttributeMap, name: &str) -> (r: bool)
    ensures
        r == has_name(m@, name@),
{
    let mut i: usize = 0;
    while i < m.entries.len()
        invariant
            0 <= i <= m.entries@.len(),
            forall|k: int| 0 <= k < i ==> m@[k].0 != name@,
        decreases m.entries@.len() - i,
    {
        if str_eq(m.entries[i].0.as_str(), name) {
            proof {
                assert(m@[i as int].0 == name@);
            }
            return true;
        }
        proof {
            assert(m@[i as int].0 == m.entries@[i as int].0@);
        }
        i = i + 1;
    }
    false
}

/// Whether every key attribute name appears in the image.
fn keys_in_image(keys: &AttributeMap, img: &AttributeMap) -> (r: bool)
    ensures
        r == (forall|i: int| 0 <= i < keys@.len() ==> has_name(img@, #[trigger] keys@[i].0)),
{
    let mut i: usize = 0;
    while i < keys.entries.len()
        invariant
            0 <= i <= keys.entries@.len(),
            forall|k: int| 0 <= k < i ==> has_name(img@, #[trigger] keys@[k].0),
        decreases keys.entries@.len() - i,
    {
        if !amap_has_name(img, keys.entries[i].0.as_str()) {
            proof {
                assert(keys@[i as int].0 == keys.entries@[i as int].0@);
            }
            return false;
        }
        proof {
            assert(keys@[i as int].0 == keys.entries@[i as int].0@);
        }
        i = i + 1;
    }
    true
}

/// Validates one record, returning what `dec_record` says.
fn j_to_record(j: &Json, idx: usize) -> (r: Result<Record, DecodeError>)
    ensures
        match r {
            Ok(rec) => dec_record(j@, idx as int) == Ok::<RecordV, ErrV>(rec@),
            Err(e) => dec_record(j@, idx as int) == Err::<RecordV, ErrV>(e@),
        },
{
    match j {
        Json::Obj(ms) => {
            proof {
                assert(j@->Obj_0 == jmviews(ms@));
            }
            let eid: String = match obj_get(ms, "eventID") {
                None => {
                    return Err(se("eventID", idx, "missing"));
                },
                Some(Json::Str(s)) => s.clone(),
                Some(_) => {
                    return Err(se("eventID", idx, "not a string"));
                },
            };
            let name: EventName = match obj_get(ms, "eventName") {
                None => {
                    return Err(se("eventName", idx, "missing"));
                },
                Some(Json::Str(s)) => {
                    if str_eq(s.as_str(), "INSERT") {
                        EventName::Insert
                    } else if str_eq(s.as_str(), "MODIFY") {
                        EventName::Modify
                    } else if str_eq(s.as_str(), "REMOVE") {
                        EventName::Remove
                    } else {
                        return Err(se("eventName", idx, "unknown event name"));
                    }
                },
                Some(_) => {
                    return Err(se("eventName", idx, "not a string"));
                },
            };
            let ev: String = match obj_get(ms, "eventVersion") {
                None => {
                    return Err(se("eventVersion", idx, "missing"));
                },
                Some(Json::Str(s)) => s.clone(),
                Some(_) => {
                    return Err(se("eventVersion", idx, "not a string"));
                },
            };
            let es: String = match obj_get(ms, "eventSource") {
                None => {
                    return Err(se("eventSource", idx, "missing"));
                },
                Some(Json::Str(s)) => s.clone(),
                Some(_) => {
                    return Err(se("eventSource", idx, "not a string"));
                },
            };
            let ar: String = match obj_get(ms, "awsRegion") {
                None => {
                    return Err(se("awsRegion", idx, "missing"));
                },
                Some(Json::Str(s)) => s.clone(),
                Some(_) => {
                    return Err(se("awsRegion", idx, "not a string"));
                },
            };
            let ch: Dynamodb = match obj_get(ms, "dynamodb") {
                None => {
                    return Err(se("dynamodb", idx, "missing"));
                },
                Some(inner) => match j_to_change(inner, idx) {
                    Ok(c) => c,
                    Err(e) => {
                        return Err(e);
                    },
                },
            };
            let arn: String = match obj_get(ms, "eventSourceARN") {
                None => {
                    return Err(se("eventSourceARN", idx, "missing"));
                },
                Some(Json::Str(s)) => s.clone(),
                Some(_) => {
                    return Err(se("eventSourceARN", idx, "not a string"));
                },
            };
            let has_image: bool = ch.new_image.is_some();
            if has_image != (name != EventName::Remove) {
                if name == EventName::Remove {
                    return Err(
                        DecodeError::InvariantViolation {
                            reason: String::from_str("new image present on a remove event"),
                        },
                    );
                } else {
                    return Err(
                        DecodeError::InvariantViolation {
                            reason: String::from_str(
                                "new image missing on an insert or modify event",
                            ),
                        },
                    );
                }
            }
            if ch.size_bytes < 0 {
                return Err(
                    DecodeError::InvariantViolation {
                        reason: String::from_str("size in bytes is negative"),
                    },
                );
            }
            let subset_ok: bool = match &ch.new_image {
                Some(img) => keys_in_image(&ch.keys.map, &img.map),
                None => true,
            };
            proof {
                match &ch.new_image {
                    Some(m) => {
                        assert(ch@.new_image->0 == m.map@);
                        assert(ch@.keys == ch.keys.map@);
                        if subset_ok {
                            assert forall|i: int|
                                0 <= i < ch@.keys.len() implies has_name(
                                ch@.new_image->0,
                                #[trigger] ch@.keys[i].0,
                            ) by {
                                assert(ch@.keys[i].0 == ch.keys.map@[i].0);
                                assert(has_name(m.map@, ch.keys.map@[i].0));
                            }
                            assert(keys_subset_ok(ch@));
                        } else {
                            let bad = choose|i: int|
                                0 <= i < ch.keys.map@.len() && !has_name(m.map@, #[trigger] ch.keys.map@[i].0);
                            assert(!has_name(ch@.new_image->0, ch@.keys[bad].0));
                            assert(!keys_subset_ok(ch@));
                        }
                    },
                    None => {
                        assert(keys_subset_ok(ch@));
                    },
                }
            }
            if !subset_ok {
                return Err(
                    DecodeError::InvariantViolation {
                        reason: String::from_str("key attribute missing from new image"),
                    },
                );
            }
            Ok(
                Record {
                    event_id: eid,
                    event_name: name,
                    event_version: ev,
                    event_source: es,
                    aws_region: ar,
                    change: ch,
                    source_arn: arn,
                },
            )
        },
        _ => Err(se("record", idx, "not an object")),
    }
}

/// Validates a sequence of records, returning what `dec_records` says.
fn j_to_records(ts: &[Json], base: usize) -> (r: Result<Vec<Record>, DecodeError>)
    requires
        base + ts@.len() <= usize::MAX,
    ensures
        match r {
            Ok(rs) => dec_records(jviews(ts@), base as int) == Ok::<Seq<RecordV>, ErrV>(
                Seq::new(
                    rs@.len(),
                    |i: int|
                        if 0 <= i < rs@.len() {
                            rs@[i]@
                        } else {
                            rs@[0]@
                        },
                ),
            ),
            Err(e) => dec_records(jviews(ts@), base as int) == Err::<Seq<RecordV>, ErrV>(e@),
        },
    decreases ts@.len(),
{
    if ts.len() == 0 {
        let rs: Vec<Record> = Vec::new();
        proof {
            assert(jviews(ts@) =~= Seq::<JTree>::empty());
            assert(Seq::new(
                rs@.len(),
                |i: int|
                    if 0 <= i < rs@.len() {
                        rs@[i]@
                    } else {
                        rs@[0]@
                    },
            ) =~= Seq::<RecordV>::empty());
        }
        Ok(rs)
    } else {
        proof {
            assert(jviews(ts@)[0] == ts@[0]@);
        }
        match j_to_record(vstd::slice::slice_index_get(ts, 0), base) {
            Err(e) => Err(e),
            Ok(rec) => {
                let rest: &[Json] = vstd::slice::slice_subrange(ts, 1, ts.len());
                proof {
                    assert(jviews(rest@) =~= jviews(ts@).skip(1));
                }
                match j_to_records(rest, base + 1) {
                    Err(e) => Err(e),
                    Ok(mut rs) => {
                        let ghost old_rs = rs@;
                        rs.insert(0, rec);
                        proof {
                            assert(Seq::new(
                                rs@.len(),
                                |i: int|
                                    if 0 <= i < rs@.len() {
                                        rs@[i]@
                                    } else {
                                        rs@[0]@
                                    },
                            ) =~= seq![rs@[0]@] + Seq::new(
                                old_rs.len(),
                                |i: int|
                                    if 0 <= i < old_rs.len() {
                                        old_rs[i]@
                                    } else {
                                        old_rs[0]@
                                    },
                            ));
                        }
                        Ok(rs)
                    },
                }
            },
        }
    }
}

/// Validates a whole tree as an envelope, returning what `dec_env` says.
pub fn decode_tree(j: &Json) -> (r: Result<Root, DecodeError>)
    ensures
        match r {
            Ok(e) => dec_env(j@) == Ok::<RootV, ErrV>(e@),
            Err(e) => dec_env(j@) == Err::<RootV, ErrV>(e@),
        },
{
    match j {
        Json::Obj(ms) => {
            proof {
                assert(j@->Obj_0 == jmviews(ms@));
            }
            match obj_get(ms, "Records") {
                Some(Json::Arr(ts)) => {
                    let n: usize = ts.len();
                    let ghost jv = lookup(jmviews(ms@), "Records"@)->0;
                    proof {
                        assert(jv->Arr_0 == jviews(ts@));
                    }
                    match j_to_records(ts.as_slice(), 0) {
                        Ok(rs) => {
                            let e = Root { records: rs };
                            proof {
                                assert(e@.records =~= Seq::new(
                                    e.records@.len(),
                                    |i: int|
                                        if 0 <= i < e.records@.len() {
                                            e.records@[i]@
                                        } else {
                                            e.records@[0]@
                                        },
                                ));
                            }
                            Ok(e)
                        },
                        Err(e) => Err(e),
                    }
                },
                _ => Err(
                    DecodeError::SchemaViolation {
                        field: String::from_str("Records"),
                        record_index: None,
                        reason: String::from_str("missing or not a sequence"),
                    },
                ),
            }
        },
        _ => Err(
            DecodeError::SchemaViolation {
                field: String::from_str("Records"),
                record_index: None,
                reason: String::from_str("missing or not a sequence"),
            },
        ),
    }
}

/// Builds a string node.
fn jstr(s: &String) -> (j: Json)
    ensures
        j@ == JTree::Str(s@),
{
    let t = s.clone();
    Json::Str(t)
}

/// Builds an object node from its members.
fn jobj(ms: Vec<(String, Json)>) -> (j: Json)
    ensures
        j@ == JTree::Obj(jmviews(ms@)),
{
    let j = Json::Obj(ms);
    proof {
        assert(j@->Obj_0 =~~= jmviews(j->Obj_0@));
    }
    j
}

/// Builds an array node from its elements.
fn jarr(ts: Vec<Json>) -> (j: Json)
    ensures
        j@ == JTree::Arr(jviews(ts@)),
{
    let j = Json::Arr(ts);
    proof {
        assert(j@->Arr_0 =~~= jviews(j->Arr_0@));
    }
    j
}

/// Appends one member to an object under construction.
fn push_member(out: &mut Vec<(String, Json)>, k: &str, v: Json)
    ensures
        jmviews(final(out)@) == jmviews(old(out)@).push((k@, v@)),
{
    let ghost gv = v@;
    let ks = String::from_str(k);
    let pair = (ks, v);
    proof {
        assert(pair.1@ == gv);
    }
    out.push(pair);
    proof {
        assert(jmviews(out@) =~~= jmviews(old(out)@).push((k@, gv)));
    }
}

/// Appends one element to an array under construction.
fn push_json(out: &mut Vec<Json>, v: Json)
    ensures
        jviews(final(out)@) == jviews(old(out)@).push(v@),
{
    let ghost gv = v@;
    out.push(v);
    proof {
        assert(jviews(out@) =~~= jviews(old(out)@).push(gv));
    }
}

/// Builds an object holding one member.
fn jobj1(k: &str, v: Json) -> (j: Json)
    ensures
        j@ == JTree::Obj(seq![(k@, v@)]),
{
    let ghost gv = v@;
    let mut ms: Vec<(String, Json)> = Vec::new();
    push_member(&mut ms, k, v);
    let j = jobj(ms);
    proof {
        assert(jmviews(Seq::<(String, Json)>::empty()) =~~= Seq::<(Seq<char>, JTree)>::empty());
        assert(jmviews(ms@) =~~= seq![(k@, gv)]);
    }
    j
}

/// Builds the trees of a vector of strings.
fn strs_to_json(v: &Vec<String>) -> (out: Vec<Json>)
    ensures
        jviews(out@) == Seq::new(v@.len(), |i: int| JTree::Str(v@[i]@)),
{
    let ghost target = Seq::new(v@.len(), |i: int| JTree::Str(v@[i]@));
    let mut out: Vec<Json> = Vec::new();
    proof {
        assert(jviews(out@) =~~= target.take(0));
    }
    let mut i: usize = 0;
    while i < v.len()
        invariant
            0 <= i <= v@.len(),
            target == Seq::new(v@.len(), |k: int| JTree::Str(v@[k]@)),
            jviews(out@) == target.take(i as int),
        decreases v@.len() - i,
    {
        push_json(&mut out, jstr(&v[i]));
        proof {
            assert(target.take(i as int).push(target[i as int]) =~~= target.take(i as int + 1));
        }
        i = i + 1;
    }
    proof {
        assert(target.take(v@.len() as int) =~~= target);
    }
    out
}

/// Builds the canonical tree of an attribute value.
pub fn attr_to_json(a: &AttributeValue) -> (j: Json)
    ensures
        j@ == attr_tree(a@),
    decreases *a,
{
    match a {
        AttributeValue::S(s) => {
            let j = jobj1("S", jstr(s));
            proof {
                assert(attr_tree(a@)->Obj_0 =~= j@->Obj_0);
            }
            j
        },
        AttributeValue::N(s) => {
            let j = jobj1("N", jstr(s));
            proof {
                assert(attr_tree(a@)->Obj_0 =~= j@->Obj_0);
            }
            j
        },
        AttributeValue::B(s) => {
            let j = jobj1("B", jstr(s));
            proof {
                assert(attr_tree(a@)->Obj_0 =~= j@->Obj_0);
            }
            j
        },
        AttributeValue::Bool(b) => {
            let j = jobj1("BOOL", Json::Bool(*b));
            proof {
                assert(attr_tree(a@)->Obj_0 =~= j@->Obj_0);
            }
            j
        },
        AttributeValue::Null => {
            let j = jobj1("NULL", Json::Bool(true));
            proof {
                assert(attr_tree(a@)->Obj_0 =~= j@->Obj_0);
            }
            j
        },
        AttributeValue::M(m) => {
            let inner = amap_members(m);
            let ghost gb = jmviews(inner@);
            let j = jobj1("M", jobj(inner));
            proof {
                assert(a@->M_0 =~~= m@);
                assert(attr_tree(a@)->Obj_0[0].1->Obj_0 == amap_tree(m@));
                assert(attr_tree(a@)->Obj_0[0].1 == JTree::Obj(gb));
                assert(attr_tree(a@)->Obj_0 =~= j@->Obj_0);
            }
            j
        },
        AttributeValue::L(l) => {
            let ghost target = Seq::new(
                l@.len(),
                |k: int|
                    if 0 <= k < l@.len() {
                        attr_tree(l@[k]@)
                    } else {
                        JTree::Null
                    },
            );
            let mut arr: Vec<Json> = Vec::new();
            proof {
                assert(jviews(arr@) =~~= target.take(0));
            }
            let mut i: usize = 0;
            while i < l.len()
                invariant
                    0 <= i <= l@.len(),
                    *a is L,
                    a->L_0 == *l,
                    target == Seq::new(
                        l@.len(),
                        |k: int|
                            if 0 <= k < l@.len() {
                                attr_tree(l@[k]@)
                            } else {
                                JTree::Null
                            },
                    ),
                    jviews(arr@) == target.take(i as int),
                decreases l@.len() - i,
            {
                proof {
                    assert(decreases_to!(*a => a->L_0));
                    assert(decreases_to!(a->L_0 => l@));
                    assert(decreases_to!(l@ => l@[i as int]));
                }
                push_json(&mut arr, attr_to_json(&l[i]));
                proof {
                    assert(target.take(i as int).push(target[i as int]) =~~= target.take(
                        i as int + 1,
                    ));
                }
                i = i + 1;
            }
            proof {
                assert(target.take(l@.len() as int) =~~= target);
            }
            let ghost gb = jviews(arr@);
            let j = jobj1("L", jarr(arr));
            proof {
                assert(attr_tree(a@)->Obj_0[0].1->Arr_0 =~~= gb);
                assert(attr_tree(a@)->Obj_0[0].1 == JTree::Arr(gb));
                assert(attr_tree(a@)->Obj_0 =~= j@->Obj_0);
            }
            j
        },
        AttributeValue::Ss(v) => {
            let arr = strs_to_json(v);
            let ghost gb = jviews(arr@);
            let j = jobj1("SS", jarr(arr));
            proof {
                assert(attr_tree(a@)->Obj_0[0].1->Arr_0 =~~= gb);
                assert(attr_tree(a@)->Obj_0[0].1 == JTree::Arr(gb));
                assert(attr_tree(a@)->Obj_0 =~= j@->Obj_0);
            }
            j
        },
        AttributeValue::Ns(v) => {
            let arr = strs_to_json(v);
            let ghost gb = jviews(arr@);
            let j = jobj1("NS", jarr(arr));
            proof {
                assert(attr_tree(a@)->Obj_0[0].1->Arr_0 =~~= gb);
                assert(attr_tree(a@)->Obj_0[0].1 == JTree::Arr(gb));
                assert(attr_tree(a@)->Obj_0 =~= j@->Obj_0);
            }
            j
        },
        AttributeValue::Bs(v) => {
            let arr = strs_to_json(v);
            let ghost gb = jviews(arr@);
            let j = jobj1("BS", jarr(arr));
            proof {
                assert(attr_tree(a@)->Obj_0[0].1->Arr_0 =~~= gb);
                assert(attr_tree(a@)->Obj_0[0].1 == JTree::Arr(gb));
                assert(attr_tree(a@)->Obj_0 =~= j@->Obj_0);
            }
            j
        },
    }
}

/// Builds the canonical members of an attribute map.
pub fn amap_members(m: &AttributeMap) -> (out: Vec<(String, Json)>)
    ensures
        jmviews(out@) == amap_tree(m@),
    decreases *m,
{
    let mut out: Vec<(String, Json)> = Vec::new();
    proof {
        assert(jmviews(out@) =~~= amap_tree(m@).take(0));
    }
    let mut i: usize = 0;
    while i < m.entries.len()
        invariant
            0 <= i <= m.entries@.len(),
            jmviews(out@) == amap_tree(m@).take(i as int),
        decreases m.entries@.len() - i,
    {
        let j = attr_to_json(&m.entries[i].1);
        push_member(&mut out, m.entries[i].0.as_str(), j);
        proof {
            assert(m@[i as int] == (m.entries@[i as int].0@, m.entries@[i as int].1@));
            assert(amap_tree(m@)[i as int] == (m@[i as int].0, attr_tree(m@[i as int].1)));
            assert(amap_tree(m@).take(i as int).push(amap_tree(m@)[i as int]) =~~= amap_tree(
                m@,
            ).take(i as int + 1));
        }
        i = i + 1;
    }
    proof {
        assert(amap_tree(m@).take(m.entries@.len() as int) =~~= amap_tree(m@));
    }
    out
}

/// Builds the canonical members of a change.
fn change_members(c: &Dynamodb) -> (out: Vec<(String, Json)>)
    ensures
        jmviews(out@) == change_tree(c@),
{
    let mut out: Vec<(String, Json)> = Vec::new();
    push_member(&mut out, "ApproximateCreationDateTime", Json::Int(c.approximate_creation_time));
    push_member(&mut out, "Keys", jobj(amap_members(&c.keys.map)));
    match &c.new_image {
        Some(m) => {
            push_member(&mut out, "NewImage", jobj(amap_members(&m.map)));
        },
        None => {},
    }
    push_member(&mut out, "SequenceNumber", jstr(&c.sequence_number));
    push_member(&mut out, "SizeBytes", Json::Int(c.size_bytes));
    push_member(&mut out, "StreamViewType", jstr(&c.stream_view_type));
    proof {
        assert(jmviews(Seq::<(String, Json)>::empty()) =~~= Seq::<(Seq<char>, JTree)>::empty());
        assert(jmviews(out@) =~~= change_tree(c@));
    }
    out
}

/// Builds the canonical tree of a record.
pub fn record_to_json(r: &Record) -> (j: Json)
    ensures
        j@ == record_tree(r@),
{
    let name: String = match r.event_name {
        EventName::Insert => String::from_str("INSERT"),
        EventName::Modify => String::from_str("MODIFY"),
        EventName::Remove => String::from_str("REMOVE"),
    };
    let mut out: Vec<(String, Json)> = Vec::new();
    push_member(&mut out, "eventID", jstr(&r.event_id));
    push_member(&mut out, "eventName", jstr(&name));
    push_member(&mut out, "eventVersion", jstr(&r.event_version));
    push_member(&mut out, "eventSource", jstr(&r.event_source));
    push_member(&mut out, "awsRegion", jstr(&r.aws_region));
    push_member(&mut out, "dynamodb", jobj(change_members(&r.change)));
    push_member(&mut out, "eventSourceARN", jstr(&r.source_arn));
    let j = jobj(out);
    proof {
        assert(jmviews(Seq::<(String, Json)>::empty()) =~~= Seq::<(Seq<char>, JTree)>::empty());
        assert(j@->Obj_0 =~~= record_tree(r@)->Obj_0);
    }
    j
}

/// Builds the canonical tree of an envelope.
pub fn env_to_json(e: &Root) -> (j: Json)
    ensures
        j@ == env_tree(e@),
{
    let ghost target = Seq::new(
        e.records@.len(),
        |k: int|
            if 0 <= k < e.records@.len() {
                record_tree(e.records@[k]@)
            } else {
                JTree::Null
            },
    );
    let mut arr: Vec<Json> = Vec::new();
    proof {
        assert(jviews(arr@) =~~= target.take(0));
    }
    let mut i: usize = 0;
    while i < e.records.len()
        invariant
            0 <= i <= e.records@.len(),
            target == Seq::new(
                e.records@.len(),
                |k: int|
                    if 0 <= k < e.records@.len() {
                        record_tree(e.records@[k]@)
                    } else {
                        JTree::Null
                    },
            ),
            jviews(arr@) == target.take(i as int),
        decreases e.records@.len() - i,
    {
        push_json(&mut arr, record_to_json(&e.records[i]));
        proof {
            assert(target.take(i as int).push(target[i as int]) =~~= target.take(i as int + 1));
        }
        i = i + 1;
    }
    proof {
        assert(target.take(e.records@.len() as int) =~~= target);
    }
    let j = jobj1("Records", jarr(arr));
    proof {
        assert(env_tree(e@)->Obj_0[0].1->Arr_0 =~~= target);
        assert(env_tree(e@)->Obj_0 =~~= j@->Obj_0);
    }
    j
}

/// Two strings differing at an index are different.
pub proof fn lemma_neq_at(a: Seq<char>, b: Seq<char>, i: int)
    requires
        0 <= i < a.len(),
        0 <= i < b.len(),
        a[i] != b[i],
    ensures
        a != b,
{
    if a == b {
        assert(a[i] == b[i]);
    }
}

/// One step of a lookup past a member with another name.
pub proof fn lemma_lookup_step(ms: Seq<(Seq<char>, JTree)>, k: Seq<char>)
    requires
        ms.len() >= 1,
        ms[0].0 != k,
    ensures
        lookup(ms, k) == lookup(ms.skip(1), k),
{
}

/// A lookup that finds its name at the head.
pub proof fn lemma_lookup_head(ms: Seq<(Seq<char>, JTree)>, k: Seq<char>)
    requires
        ms.len() >= 1,
        ms[0].0 == k,
    ensures
        lookup(ms, k) == Some(ms[0].1),
{
}

/// Validating the canonical tree of a well-formed attribute value yields
/// the value back, and the tree is well formed.
#[verifier::rlimit(100)]
pub proof fn lemma_rt_attr(a: AttrV, idx: int)
    requires
        wf_attr(a),
    ensures
        wf_tree(attr_tree(a)),
        dec_attr(attr_tree(a), idx) == Ok::<AttrV, ErrV>(a),
    decreases a, 0int,
{
    reveal_strlit("S");
    reveal_strlit("N");
    reveal_strlit("B");
    reveal_strlit("BOOL");
    reveal_strlit("NULL");
    reveal_strlit("M");
    reveal_strlit("L");
    reveal_strlit("SS");
    reveal_strlit("NS");
    reveal_strlit("BS");
    let ms = attr_tree(a)->Obj_0;
    match a {
        AttrV::M(m) => {
            lemma_rt_amap(m, idx);
        },
        AttrV::L(l) => {
            lemma_rt_alist(l, idx);
        },
        AttrV::Ss(v) => {
            lemma_rt_strs(v, idx, "SS"@);
        },
        AttrV::Ns(v) => {
            lemma_rt_strs(v, idx, "NS"@);
        },
        AttrV::Bs(v) => {
            lemma_rt_strs(v, idx, "BS"@);
        },
        _ => {},
    }
    assert(ms.len() == 1);
    assert forall|k: int| 0 <= k < ms.len() implies wf_tree(#[trigger] ms[k].1) && valid_str(
        ms[k].0,
    ) by {
        assert(ms[k] == ms[0]);
    }
    assert(wf_members(ms));
    lemma_neq_at("N"@, "S"@, 0);
    lemma_neq_at("B"@, "S"@, 0);
    lemma_neq_at("B"@, "N"@, 0);
    lemma_neq_at("M"@, "S"@, 0);
    lemma_neq_at("M"@, "N"@, 0);
    lemma_neq_at("M"@, "B"@, 0);
    lemma_neq_at("L"@, "S"@, 0);
    lemma_neq_at("L"@, "N"@, 0);
    lemma_neq_at("L"@, "B"@, 0);
    lemma_neq_at("L"@, "M"@, 0);
    lemma_neq_at("NULL"@, "BOOL"@, 0);
    lemma_neq_at("NS"@, "SS"@, 0);
    lemma_neq_at("BS"@, "SS"@, 0);
    lemma_neq_at("BS"@, "NS"@, 0);
    assert(dec_attr(attr_tree(a), idx) == Ok::<AttrV, ErrV>(a));
}

/// Validating the canonical members of a well-formed attribute map yields
/// the map back, and the members are well formed.
pub proof fn lemma_rt_amap(m: Seq<(Seq<char>, AttrV)>, idx: int)
    requires
        wf_amap(m),
    ensures
        wf_members(amap_tree(m)),
        dec_amap(amap_tree(m), idx) == Ok::<Seq<(Seq<char>, AttrV)>, ErrV>(m),
    decreases m, 1int,
{
    let ms = amap_tree(m);
    assert forall|k: int| 0 <= k < ms.len() implies wf_tree(#[trigger] ms[k].1) && valid_str(
        ms[k].0,
    ) by {
        lemma_rt_attr(m[k].1, idx);
    }
    if m.len() == 0 {
        assert(ms =~= Seq::<(Seq<char>, JTree)>::empty());
        assert(m =~= Seq::<(Seq<char>, AttrV)>::empty());
    } else {
        lemma_rt_attr(m[0].1, idx);
        assert(ms[0] == (m[0].0, attr_tree(m[0].1)));
        let m1 = m.skip(1);
        assert forall|k: int| 0 <= k < m1.len() implies wf_attr(#[trigger] m1[k].1) && valid_str(
            m1[k].0,
        ) by {
            assert(m1[k] == m[k + 1]);
            assert(wf_attr(m[k + 1].1) && valid_str(m[k + 1].0));
        }
        lemma_rt_amap(m1, idx);
        assert(ms.skip(1) =~= amap_tree(m1));
        assert(seq![(m[0].0, m[0].1)] + m1 =~= m);
    }
}

/// Validating the canonical trees of well-formed list elements yields the
/// elements back, and the trees are well formed.
pub proof fn lemma_rt_alist(l: Seq<AttrV>, idx: int)
    requires
        wf_alist(l),
    ensures
        wf_items(alist_tree(l)),
        dec_attr_list(alist_tree(l), idx) == Ok::<Seq<AttrV>, ErrV>(l),
    decreases l, 1int,
{
    let ts = alist_tree(l);
    assert forall|k: int| 0 <= k < ts.len() implies wf_tree(#[trigger] ts[k]) by {
        lemma_rt_attr(l[k], idx);
    }
    if l.len() == 0 {
        assert(ts =~= Seq::<JTree>::empty());
        assert(l =~= Seq::<AttrV>::empty());
    } else {
        lemma_rt_attr(l[0], idx);
        let l1 = l.skip(1);
        assert forall|k: int| 0 <= k < l1.len() implies wf_attr(#[trigger] l1[k]) by {
            assert(l1[k] == l[k + 1]);
            assert(wf_attr(l[k + 1]));
        }
        lemma_rt_alist(l1, idx);
        assert(ts.skip(1) =~= alist_tree(l1));
        assert(seq![l[0]] + l1 =~= l);
    }
}

/// Validating the canonical trees of a string set yields the strings back,
/// and the trees are well formed.
pub proof fn lemma_rt_strs(v: Seq<Seq<char>>, idx: int, field: Seq<char>)
    requires
        wf_strs(v),
    ensures
        wf_items(strs_tree(v)),
        dec_str_list(strs_tree(v), idx, field) == Ok::<Seq<Seq<char>>, ErrV>(v),
    decreases v.len(),
{
    let ts = strs_tree(v);
    assert(forall|k: int| 0 <= k < ts.len() ==> wf_tree(#[trigger] ts[k]));
    if v.len() == 0 {
        assert(ts =~= Seq::<JTree>::empty());
        assert(v =~= Seq::<Seq<char>>::empty());
    } else {
        let v1 = v.skip(1);
        assert(forall|k: int|
            0 <= k < v1.len() ==> valid_str(#[trigger] v1[k]));
        lemma_rt_strs(v1, idx, field);
        assert(ts.skip(1) =~= strs_tree(v1));
        assert(seq![v[0]] + v1 =~= v);
    }
}

/// Validating the canonical members of a well-formed change yields the
/// change back, and the members are well formed.
#[verifier::rlimit(100)]
pub proof fn lemma_rt_change(c: DynamodbV, idx: int)
    requires
        wf_change_fields(c),
    ensures
        wf_members(change_tree(c)),
        dec_change(JTree::Obj(change_tree(c)), idx) == Ok::<DynamodbV, ErrV>(c),
{
    reveal_strlit("ApproximateCreationDateTime");
    reveal_strlit("Keys");
    reveal_strlit("NewImage");
    reveal_strlit("SequenceNumber");
    reveal_strlit("SizeBytes");
    reveal_strlit("StreamViewType");
    lemma_neq_at("StreamViewType"@, "SequenceNumber"@, 1);
    lemma_rt_amap(c.keys, idx);
    let ms = change_tree(c);
    match c.new_image {
        Some(img) => {
            lemma_rt_amap(img, idx);
            assert(ms =~= seq![
                ("ApproximateCreationDateTime"@, JTree::Int(c.approximate_creation_time)),
                ("Keys"@, JTree::Obj(amap_tree(c.keys))),
                ("NewImage"@, JTree::Obj(amap_tree(img))),
                ("SequenceNumber"@, JTree::Str(c.sequence_number)),
                ("SizeBytes"@, JTree::Int(c.size_bytes)),
                ("StreamViewType"@, JTree::Str(c.stream_view_type)),
            ]);
            assert(ms[0].0 == "ApproximateCreationDateTime"@);
            assert(ms[1].0 == "Keys"@);
            assert(ms[2].0 == "NewImage"@);
            assert(ms[3].0 == "SequenceNumber"@);
            assert(ms[4].0 == "SizeBytes"@);
            assert(ms[5].0 == "StreamViewType"@);
            let m1 = ms.skip(1);
            let m2 = m1.skip(1);
            let m3 = m2.skip(1);
            let m4 = m3.skip(1);
            let m5 = m4.skip(1);
            let m6 = m5.skip(1);
            assert(m1[0] == ms[1]);
            assert(m2[0] == ms[2]);
            assert(m3[0] == ms[3]);
            assert(m4[0] == ms[4]);
            assert(m5[0] == ms[5]);
            assert(m6.len() == 0);
            lemma_lookup_head(ms, "ApproximateCreationDateTime"@);
            lemma_lookup_step(ms, "Keys"@);
            lemma_lookup_head(m1, "Keys"@);
            lemma_lookup_step(ms, "NewImage"@);
            lemma_lookup_step(m1, "NewImage"@);
            lemma_lookup_head(m2, "NewImage"@);
            lemma_lookup_step(ms, "SequenceNumber"@);
            lemma_lookup_step(m1, "SequenceNumber"@);
            lemma_lookup_step(m2, "SequenceNumber"@);
            lemma_lookup_head(m3, "SequenceNumber"@);
            lemma_lookup_step(ms, "SizeBytes"@);
            lemma_lookup_step(m1, "SizeBytes"@);
            lemma_lookup_step(m2, "SizeBytes"@);
            lemma_lookup_step(m3, "SizeBytes"@);
            lemma_lookup_head(m4, "SizeBytes"@);
            lemma_lookup_step(ms, "StreamViewType"@);
            lemma_lookup_step(m1, "StreamViewType"@);
            lemma_lookup_step(m2, "StreamViewType"@);
            lemma_lookup_step(m3, "StreamViewType"@);
            lemma_lookup_step(m4, "StreamViewType"@);
            lemma_lookup_head(m5, "StreamViewType"@);
            assert(lookup(ms, "ApproximateCreationDateTime"@) == Some(
                JTree::Int(c.approximate_creation_time),
            ));
            assert(lookup(ms, "Keys"@) == Some(JTree::Obj(amap_tree(c.keys))));
            assert(lookup(ms, "NewImage"@) == Some(JTree::Obj(amap_tree(img))));
            assert(lookup(ms, "SequenceNumber"@) == Some(JTree::Str(c.sequence_number)));
            assert(lookup(ms, "SizeBytes"@) == Some(JTree::Int(c.size_bytes)));
            assert(lookup(ms, "StreamViewType"@) == Some(JTree::Str(c.stream_view_type)));
            assert(dec_change(JTree::Obj(ms), idx)->Ok_0 =~~= c);
        },
        None => {
            assert(ms =~= seq![
                ("ApproximateCreationDateTime"@, JTree::Int(c.approximate_creation_time)),
                ("Keys"@, JTree::Obj(amap_tree(c.keys))),
                ("SequenceNumber"@, JTree::Str(c.sequence_number)),
                ("SizeBytes"@, JTree::Int(c.size_bytes)),
                ("StreamViewType"@, JTree::Str(c.stream_view_type)),
            ]);
            assert(ms[0].0 == "ApproximateCreationDateTime"@);
            assert(ms[1].0 == "Keys"@);
            assert(ms[2].0 == "SequenceNumber"@);
            assert(ms[3].0 == "SizeBytes"@);
            assert(ms[4].0 == "StreamViewType"@);
            let m1 = ms.skip(1);
            let m2 = m1.skip(1);
            let m3 = m2.skip(1);
            let m4 = m3.skip(1);
            let m5 = m4.skip(1);
            assert(m1[0] == ms[1]);
            assert(m2[0] == ms[2]);
            assert(m3[0] == ms[3]);
            assert(m4[0] == ms[4]);
            assert(m5.len() == 0);
            lemma_lookup_head(ms, "ApproximateCreationDateTime"@);
            lemma_lookup_step(ms, "Keys"@);
            lemma_lookup_head(m1, "Keys"@);
            lemma_lookup_step(ms, "SequenceNumber"@);
            lemma_lookup_step(m1, "SequenceNumber"@);
            lemma_lookup_head(m2, "SequenceNumber"@);
            lemma_lookup_step(ms, "SizeBytes"@);
            lemma_lookup_step(m1, "SizeBytes"@);
            lemma_lookup_step(m2, "SizeBytes"@);
            lemma_lookup_head(m3, "SizeBytes"@);
            lemma_lookup_step(ms, "StreamViewType"@);
            lemma_lookup_step(m1, "StreamViewType"@);
            lemma_lookup_step(m2, "StreamViewType"@);
            lemma_lookup_step(m3, "StreamViewType"@);
            lemma_lookup_head(m4, "StreamViewType"@);
            lemma_lookup_step(ms, "NewImage"@);
            lemma_lookup_step(m1, "NewImage"@);
            lemma_lookup_step(m2, "NewImage"@);
            lemma_lookup_step(m3, "NewImage"@);
            lemma_lookup_step(m4, "NewImage"@);
            assert(lookup(m5, "NewImage"@) is None);
            assert(lookup(ms, "ApproximateCreationDateTime"@) == Some(
                JTree::Int(c.approximate_creation_time),
            ));
            assert(lookup(ms, "Keys"@) == Some(JTree::Obj(amap_tree(c.keys))));
            assert(lookup(ms, "NewImage"@) is None);
            assert(lookup(ms, "SequenceNumber"@) == Some(JTree::Str(c.sequence_number)));
            assert(lookup(ms, "SizeBytes"@) == Some(JTree::Int(c.size_bytes)));
            assert(lookup(ms, "StreamViewType"@) == Some(JTree::Str(c.stream_view_type)));
            assert(dec_change(JTree::Obj(ms), idx)->Ok_0 =~~= c);
        },
    }
}

/// What validating a record with well-typed fields comes to: only the
/// cross-field rules remain to be checked.
pub open spec fn record_checks(r: RecordV) -> Result<RecordV, ErrV> {
    if (r.change.new_image is Some) != (r.event_name != EventName::Remove) {
        if r.event_name == EventName::Remove {
            Err(ErrV::Invariant { reason: "new image present on a remove event"@ })
        } else {
            Err(ErrV::Invariant { reason: "new image missing on an insert or modify event"@ })
        }
    } else if r.change.size_bytes < 0 {
        Err(ErrV::Invariant { reason: "size in bytes is negative"@ })
    } else if !keys_subset_ok(r.change) {
        Err(ErrV::Invariant { reason: "key attribute missing from new image"@ })
    } else {
        Ok(r)
    }
}

/// Validating the canonical tree of a record with well-typed fields comes
/// down to the cross-field rules, and the tree is well formed.
#[verifier::rlimit(100)]
pub proof fn lemma_dec_record_tree(r: RecordV, idx: int)
    requires
        wf_record_fields(r),
    ensures
        wf_tree(record_tree(r)),
        dec_record(record_tree(r), idx) == record_checks(r),
{
    reveal_strlit("eventID");
    reveal_strlit("eventName");
    reveal_strlit("eventVersion");
    reveal_strlit("eventSource");
    reveal_strlit("awsRegion");
    reveal_strlit("dynamodb");
    reveal_strlit("eventSourceARN");
    reveal_strlit("INSERT");
    reveal_strlit("MODIFY");
    reveal_strlit("REMOVE");
    lemma_neq_at("awsRegion"@, "eventName"@, 0);
    lemma_neq_at("MODIFY"@, "INSERT"@, 0);
    lemma_neq_at("REMOVE"@, "INSERT"@, 0);
    lemma_neq_at("REMOVE"@, "MODIFY"@, 0);
    lemma_rt_change(r.change, idx);
    let ms = record_tree(r)->Obj_0;
    let en = event_name_chars(r.event_name);
    assert(valid_str(en));
    assert(ms[0].0 == "eventID"@);
    assert(ms[1].0 == "eventName"@);
    assert(ms[2].0 == "eventVersion"@);
    assert(ms[3].0 == "eventSource"@);
    assert(ms[4].0 == "awsRegion"@);
    assert(ms[5].0 == "dynamodb"@);
    assert(ms[6].0 == "eventSourceARN"@);
    let m1 = ms.skip(1);
    let m2 = m1.skip(1);
    let m3 = m2.skip(1);
    let m4 = m3.skip(1);
    let m5 = m4.skip(1);
    let m6 = m5.skip(1);
    let m7 = m6.skip(1);
    assert(m1[0] == ms[1]);
    assert(m2[0] == ms[2]);
    assert(m3[0] == ms[3]);
    assert(m4[0] == ms[4]);
    assert(m5[0] == ms[5]);
    assert(m6[0] == ms[6]);
    assert(m7.len() == 0);
    lemma_lookup_head(ms, "eventID"@);
    lemma_lookup_step(ms, "eventName"@);
    lemma_lookup_head(m1, "eventName"@);
    lemma_lookup_step(ms, "eventVersion"@);
    lemma_lookup_step(m1, "eventVersion"@);
    lemma_lookup_head(m2, "eventVersion"@);
    lemma_lookup_step(ms, "eventSource"@);
    lemma_lookup_step(m1, "eventSource"@);
    lemma_lookup_step(m2, "eventSource"@);
    lemma_lookup_head(m3, "eventSource"@);
    lemma_lookup_step(ms, "awsRegion"@);
    lemma_lookup_step(m1, "awsRegion"@);
    lemma_lookup_step(m2, "awsRegion"@);
    lemma_lookup_step(m3, "awsRegion"@);
    lemma_lookup_head(m4, "awsRegion"@);
    lemma_lookup_step(ms, "dynamodb"@);
    lemma_lookup_step(m1, "dynamodb"@);
    lemma_lookup_step(m2, "dynamodb"@);
    lemma_lookup_step(m3, "dynamodb"@);
    lemma_lookup_step(m4, "dynamodb"@);
    lemma_lookup_head(m5, "dynamodb"@);
    lemma_lookup_step(ms, "eventSourceARN"@);
    lemma_lookup_step(m1, "eventSourceARN"@);
    lemma_lookup_step(m2, "eventSourceARN"@);
    lemma_lookup_step(m3, "eventSourceARN"@);
    lemma_lookup_step(m4, "eventSourceARN"@);
    lemma_lookup_step(m5, "eventSourceARN"@);
    lemma_lookup_head(m6, "eventSourceARN"@);
    assert(lookup(ms, "eventID"@) == Some(JTree::Str(r.event_id)));
    assert(lookup(ms, "eventName"@) == Some(JTree::Str(en)));
    assert(lookup(ms, "eventVersion"@) == Some(JTree::Str(r.event_version)));
    assert(lookup(ms, "eventSource"@) == Some(JTree::Str(r.event_source)));
    assert(lookup(ms, "awsRegion"@) == Some(JTree::Str(r.aws_region)));
    assert(lookup(ms, "dynamodb"@) == Some(JTree::Obj(change_tree(r.change))));
    assert(lookup(ms, "eventSourceARN"@) == Some(JTree::Str(r.source_arn)));
    assert(event_name_of(en) == Some(r.event_name));
    if (r.change.new_image is Some) == (r.event_name != EventName::Remove)
        && r.change.size_bytes >= 0 && keys_subset_ok(r.change) {
        assert(dec_record(record_tree(r), idx)->Ok_0 =~~= r);
    }
    assert(dec_record(record_tree(r), idx) == record_checks(r));
    assert(valid_str("eventID"@));
    assert(valid_str("eventName"@));
    assert(valid_str("eventVersion"@));
    assert(valid_str("eventSource"@));
    assert(valid_str("awsRegion"@));
    assert(valid_str("dynamodb"@));
    assert(valid_str("eventSourceARN"@));
    assert(wf_tree(ms[0].1));
    assert(wf_tree(ms[1].1));
    assert(wf_tree(ms[2].1));
    assert(wf_tree(ms[3].1));
    assert(wf_tree(ms[4].1));
    assert(wf_tree(ms[5].1));
    assert(wf_tree(ms[6].1));
    assert(wf_members(ms));
}

/// Validating the canonical tree of a well-formed record yields the record
/// back, and the tree is well formed.
pub proof fn lemma_rt_record(r: RecordV, idx: int)
    requires
        wf_record(r),
    ensures
        wf_tree(record_tree(r)),
        dec_record(record_tree(r), idx) == Ok::<RecordV, ErrV>(r),
{
    lemma_dec_record_tree(r, idx);
}

/// A record whose event is an insert or a modify, but which carries no new
/// image, fails validation with the owed rule violation, whatever its other
/// fields hold.
pub proof fn lemma_missing_new_image(r: RecordV, idx: int)
    requires
        wf_record_fields(r),
        r.change.new_image is None,
        r.event_name != EventName::Remove,
    ensures
        dec_record(record_tree(r), idx) == Err::<RecordV, ErrV>(
            ErrV::Invariant { reason: "new image missing on an insert or modify event"@ },
        ),
{
    lemma_dec_record_tree(r, idx);
}

/// A record whose new image is present on a remove event fails validation
/// with the owed rule violation.
pub proof fn lemma_image_on_remove(r: RecordV, idx: int)
    requires
        wf_record_fields(r),
        r.change.new_image is Some,
        r.event_name == EventName::Remove,
    ensures
        dec_record(record_tree(r), idx) == Err::<RecordV, ErrV>(
            ErrV::Invariant { reason: "new image present on a remove event"@ },
        ),
{
    lemma_dec_record_tree(r, idx);
}

/// A record whose size in bytes is negative fails validation with the owed
/// rule violation, whatever its other fields hold.
pub proof fn lemma_negative_size(r: RecordV, idx: int)
    requires
        wf_record_fields(r),
        r.change.size_bytes < 0,
        r.change.new_image is Some <==> r.event_name != EventName::Remove,
    ensures
        dec_record(record_tree(r), idx) == Err::<RecordV, ErrV>(
            ErrV::Invariant { reason: "size in bytes is negative"@ },
        ),
{
    lemma_dec_record_tree(r, idx);
}

/// An attribute value carrying no variant key, or more than one, fails
/// validation with a schema violation.
pub proof fn lemma_attr_one_variant_key(ms: Seq<(Seq<char>, JTree)>, idx: int)
    requires
        ms.len() != 1,
    ensures
        dec_attr(JTree::Obj(ms), idx) == Err::<AttrV, ErrV>(
            schema_err("AttributeValue"@, idx, "not exactly one variant key"@),
        ),
{
}

/// Validating the canonical trees of well-formed records yields the records
/// back, and the trees are well formed.
pub proof fn lemma_rt_records(rs: Seq<RecordV>, base: int)
    requires
        forall|k: int| 0 <= k < rs.len() ==> wf_record(#[trigger] rs[k]),
    ensures
        wf_items(recs_tree(rs)),
        dec_records(recs_tree(rs), base) == Ok::<Seq<RecordV>, ErrV>(rs),
    decreases rs.len(),
{
    let ts = recs_tree(rs);
    assert forall|k: int| 0 <= k < ts.len() implies wf_tree(#[trigger] ts[k]) by {
        lemma_rt_record(rs[k], base + k);
    }
    if rs.len() == 0 {
        assert(ts =~= Seq::<JTree>::empty());
        assert(rs =~= Seq::<RecordV>::empty());
    } else {
        lemma_rt_record(rs[0], base);
        let rs1 = rs.skip(1);
        assert forall|k: int| 0 <= k < rs1.len() implies wf_record(#[trigger] rs1[k]) by {
            assert(rs1[k] == rs[k + 1]);
            assert(wf_record(rs[k + 1]));
        }
        lemma_rt_records(rs1, base + 1);
        assert(ts.skip(1) =~= recs_tree(rs1));
        assert(seq![rs[0]] + rs1 =~= rs);
    }
}

/// Validating the canonical tree of a well-formed envelope yields the
/// envelope back, and the tree is well formed.
pub proof fn lemma_rt_env(e: RootV)
    requires
        wf_env(e),
    ensures
        wf_tree(env_tree(e)),
        dec_env(env_tree(e)) == Ok::<RootV, ErrV>(e),
{
    reveal_strlit("Records");
    lemma_rt_records(e.records, 0);
    let ms = env_tree(e)->Obj_0;
    assert(ms[0] == ("Records"@, JTree::Arr(recs_tree(e.records))));
    lemma_lookup_head(ms, "Records"@);
    assert(lookup(ms, "Records"@) == Some(JTree::Arr(recs_tree(e.records))));
    assert(valid_str("Records"@));
    assert(wf_tree(ms[0].1));
    assert(wf_members(ms));
    assert(dec_env(env_tree(e))->Ok_0 =~~= e);
}

} // verus!
