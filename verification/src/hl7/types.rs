//! The data model of a parsed HL7 v2 message.

use vstd::prelude::*;

verus! {

/// The views of a sequence of strings.
pub open spec fn texts(v: Seq<String>) -> Seq<Seq<char>> {
    v.map_values(|s: String| s@)
}

/// The view of an optional string.
pub open spec fn opt_text(o: Option<String>) -> Option<Seq<char>> {
    match o {
        Some(s) => Some(s@),
        None => None,
    }
}

/// Separators and encoding characters, taken from MSH-1 and MSH-2.
#[derive(Debug, Clone, Copy, PartialEq, Eq, Structural)]
pub struct Delimiters {
    pub field: char,
    pub component: char,
    pub repetition: char,
    pub escape: char,
    pub subcomponent: char,
}

/// The delimiters that HL7 recommends: `| ^ ~ \ &`.
pub open spec fn default_delimiters() -> Delimiters {
    Delimiters { field: '|', component: '^', repetition: '~', escape: '\\', subcomponent: '&' }
}

impl Default for Delimiters {
    fn default() -> (d: Self)
        ensures
            d == default_delimiters(),
    {
        Delimiters { field: '|', component: '^', repetition: '~', escape: '\\', subcomponent: '&' }
    }
}

/// What a field is: its HL7 number, its text, and the text's components.
pub struct FieldView {
    pub index: nat,
    pub value: Seq<char>,
    pub components: Seq<Seq<char>>,
}

/// One field of a segment.
#[derive(Debug)]
pub struct Hl7Field {
    pub index: usize,
    pub value: String,
    pub components: Vec<String>,
}

impl View for Hl7Field {
    type V = FieldView;

    open spec fn view(&self) -> FieldView {
        FieldView {
            index: self.index as nat,
            value: self.value@,
            components: texts(self.components@),
        }
    }
}

/// The views of a sequence of fields.
pub open spec fn field_views(v: Seq<Hl7Field>) -> Seq<FieldView> {
    v.map_values(|f: Hl7Field| f@)
}

/// What a segment is: its name, its fields in order, and its text.
pub struct SegmentView {
    pub name: Seq<char>,
    pub fields: Seq<FieldView>,
    pub raw: Seq<char>,
}

/// One segment of a message.
#[derive(Debug)]
pub struct Hl7Segment {
    pub name: String,
    pub fields: Vec<Hl7Field>,
    pub raw: String,
}

impl View for Hl7Segment {
    type V = SegmentView;

    open spec fn view(&self) -> SegmentView {
        SegmentView { name: self.name@, fields: field_views(self.fields@), raw: self.raw@ }
    }
}

/// The views of a sequence of segments.
pub open spec fn segment_views(v: Seq<Hl7Segment>) -> Seq<SegmentView> {
    v.map_values(|s: Hl7Segment| s@)
}

/// A copy of a list of strings.
pub fn clone_strings(v: &Vec<String>) -> (r: Vec<String>)
    ensures
        texts(r@) == texts(v@),
{
    let mut r: Vec<String> = Vec::new();
    let mut i: usize = 0;
    while i < v.len()
        invariant
            i <= v@.len(),
            r@.len() == i,
            forall|k: int| 0 <= k < i ==> r@[k]@ == v@[k]@,
        decreases v@.len() - i,
    {
        r.push(v[i].clone());
        i += 1;
    }
    assert(texts(r@) =~= texts(v@));
    r
}

impl Clone for Hl7Field {
    fn clone(&self) -> (r: Self)
        ensures
            r@ == self@,
    {
        Hl7Field {
            index: self.index,
            value: self.value.clone(),
            components: clone_strings(&self.components),
        }
    }
}

impl Clone for Hl7Segment {
    fn clone(&self) -> (r: Self)
        ensures
            r@ == self@,
    {
        let mut fields: Vec<Hl7Field> = Vec::new();
        let mut i: usize = 0;
        while i < self.fields.len()
            invariant
                i <= self.fields@.len(),
                fields@.len() == i,
                forall|k: int| 0 <= k < i ==> fields@[k]@ == self.fields@[k]@,
            decreases self.fields@.len() - i,
        {
            fields.push(self.fields[i].clone());
            i += 1;
        }
        assert(field_views(fields@) =~= field_views(self.fields@));
        Hl7Segment { name: self.name.clone(), fields, raw: self.raw.clone() }
    }
}

/// What a message is.
pub struct MessageView {
    pub id: Seq<char>,
    pub raw: Seq<char>,
    pub received_at: i64,
    pub source_addr: Seq<char>,
    pub message_type: Seq<char>,
    pub trigger_event: Seq<char>,
    pub message_control_id: Seq<char>,
    pub sending_application: Seq<char>,
    pub sending_facility: Seq<char>,
    pub receiving_application: Seq<char>,
    pub receiving_facility: Seq<char>,
    pub version: Seq<char>,
    pub segments: Seq<SegmentView>,
    pub patient_name: Option<Seq<char>>,
    pub patient_id: Option<Seq<char>>,
    pub parse_error: Option<Seq<char>>,
}

/// A parsed HL7 v2 message. `received_at` counts the seconds since the Unix
/// epoch, in UTC.
#[derive(Debug)]
pub struct Hl7Message {
    pub id: String,
    pub raw: String,
    pub received_at: i64,
    pub source_addr: String,
    pub message_type: String,
    pub trigger_event: String,
    pub message_control_id: String,
    pub sending_application: String,
    pub sending_facility: String,
    pub receiving_application: String,
    pub receiving_facility: String,
    pub version: String,
    pub segments: Vec<Hl7Segment>,
    pub patient_name: Option<String>,
    pub patient_id: Option<String>,
    pub parse_error: Option<String>,
}

impl View for Hl7Message {
    type V = MessageView;

    open spec fn view(&self) -> MessageView {
        MessageView {
            id: self.id@,
            raw: self.raw@,
            received_at: self.received_at,
            source_addr: self.source_addr@,
            message_type: self.message_type@,
            trigger_event: self.trigger_event@,
            message_control_id: self.message_control_id@,
            sending_application: self.sending_application@,
            sending_facility: self.sending_facility@,
            receiving_application: self.receiving_application@,
            receiving_facility: self.receiving_facility@,
            version: self.version@,
            segments: segment_views(self.segments@),
            patient_name: opt_text(self.patient_name),
            patient_id: opt_text(self.patient_id),
            parse_error: opt_text(self.parse_error),
        }
    }
}

/// The message that holds a payload and its origin and nothing else yet.
pub open spec fn empty_message(
    raw: Seq<char>,
    source_addr: Seq<char>,
    id: Seq<char>,
    received_at: i64,
) -> MessageView {
    MessageView {
        id,
        raw,
        received_at,
        source_addr,
        message_type: Seq::empty(),
        trigger_event: Seq::empty(),
        message_control_id: Seq::empty(),
        sending_application: Seq::empty(),
        sending_facility: Seq::empty(),
        receiving_application: Seq::empty(),
        receiving_facility: Seq::empty(),
        version: Seq::empty(),
        segments: Seq::empty(),
        patient_name: None,
        patient_id: None,
        parse_error: None,
    }
}

/// A copy of an optional string.
pub fn clone_opt(o: &Option<String>) -> (r: Option<String>)
    ensures
        r == *o,
{
    match o {
        Some(s) => Some(s.clone()),
        None => None,
    }
}

impl Hl7Message {
    /// A message that holds `raw` and `source_addr`, the identity and arrival
    /// time given, and no parsed content.
    pub fn with_identity(raw: String, source_addr: String, id: String, received_at: i64) -> (m:
        Self)
        ensures
            m@ == empty_message(raw@, source_addr@, id@, received_at),
    {
        let m = Hl7Message {
            id,
            raw,
            received_at,
            source_addr,
            message_type: String::new(),
            trigger_event: String::new(),
            message_control_id: String::new(),
            sending_application: String::new(),
            sending_facility: String::new(),
            receiving_application: String::new(),
            receiving_facility: String::new(),
            version: String::new(),
            segments: Vec::new(),
            patient_name: None,
            patient_id: None,
            parse_error: None,
        };
        assert(m@.segments =~= Seq::<SegmentView>::empty());
        m
    }
}

impl Clone for Hl7Message {
    fn clone(&self) -> (r: Self)
        ensures
            r@ == self@,
    {
        let mut segments: Vec<Hl7Segment> = Vec::new();
        let mut i: usize = 0;
        while i < self.segments.len()
            invariant
                i <= self.segments@.len(),
                segments@.len() == i,
                forall|k: int| 0 <= k < i ==> segments@[k]@ == self.segments@[k]@,
            decreases self.segments@.len() - i,
        {
            segments.push(self.segments[i].clone());
            i += 1;
        }
        assert(segment_views(segments@) =~= segment_views(self.segments@));
        Hl7Message {
            id: self.id.clone(),
            raw: self.raw.clone(),
            received_at: self.received_at,
            source_addr: self.source_addr.clone(),
            message_type: self.message_type.clone(),
            trigger_event: self.trigger_event.clone(),
            message_control_id: self.message_control_id.clone(),
            sending_application: self.sending_application.clone(),
            sending_facility: self.sending_facility.clone(),
            receiving_application: self.receiving_application.clone(),
            receiving_facility: self.receiving_facility.clone(),
            version: self.version.clone(),
            segments,
            patient_name: clone_opt(&self.patient_name),
            patient_id: clone_opt(&self.patient_id),
            parse_error: clone_opt(&self.parse_error),
        }
    }
}

/// What a summary is.
pub struct SummaryView {
    pub id: Seq<char>,
    pub received_at: i64,
    pub source_addr: Seq<char>,
    pub message_type: Seq<char>,
    pub trigger_event: Seq<char>,
    pub message_control_id: Seq<char>,
    pub sending_facility: Seq<char>,
    pub patient_name: Option<Seq<char>>,
    pub patient_id: Option<Seq<char>>,
    pub segment_count: nat,
    pub parse_error: Option<Seq<char>>,
}

/// The summary of a message: the message without its payload and segments,
/// with the number of segments in their place.
pub open spec fn summary_of(m: MessageView) -> SummaryView {
    SummaryView {
        id: m.id,
        received_at: m.received_at,
        source_addr: m.source_addr,
        message_type: m.message_type,
        trigger_event: m.trigger_event,
        message_control_id: m.message_control_id,
        sending_facility: m.sending_facility,
        patient_name: m.patient_name,
        patient_id: m.patient_id,
        segment_count: m.segments.len(),
        parse_error: m.parse_error,
    }
}

/// The light form of a message, for lists, searches and notifications.
#[derive(Debug)]
pub struct Hl7MessageSummary {
    pub id: String,
    pub received_at: i64,
    pub source_addr: String,
    pub message_type: String,
    pub trigger_event: String,
    pub message_control_id: String,
    pub sending_facility: String,
    pub patient_name: Option<String>,
    pub patient_id: Option<String>,
    pub segment_count: usize,
    pub parse_error: Option<String>,
}

impl View for Hl7MessageSummary {
    type V = SummaryView;

    open spec fn view(&self) -> SummaryView {
        SummaryView {
            id: self.id@,
            received_at: self.received_at,
            source_addr: self.source_addr@,
            message_type: self.message_type@,
            trigger_event: self.trigger_event@,
            message_control_id: self.message_control_id@,
            sending_facility: self.sending_facility@,
            patient_name: opt_text(self.patient_name),
            patient_id: opt_text(self.patient_id),
            segment_count: self.segment_count as nat,
            parse_error: opt_text(self.parse_error),
        }
    }
}

impl Hl7MessageSummary {
    /// The summary of `msg`.
    pub fn of(msg: &Hl7Message) -> (s: Self)
        ensures
            s@ == summary_of(msg@),
            s == projection(msg),
    {
        Hl7MessageSummary {
            id: msg.id.clone(),
            received_at: msg.received_at,
            source_addr: msg.source_addr.clone(),
            message_type: msg.message_type.clone(),
            trigger_event: msg.trigger_event.clone(),
            message_control_id: msg.message_control_id.clone(),
            sending_facility: msg.sending_facility.clone(),
            patient_name: clone_opt(&msg.patient_name),
            patient_id: clone_opt(&msg.patient_id),
            segment_count: msg.segments.len(),
            parse_error: clone_opt(&msg.parse_error),
        }
    }
}

impl From<&Hl7Message> for Hl7MessageSummary {
    fn from(msg: &Hl7Message) -> (s: Self)
        ensures
            s@ == summary_of(msg@),
    {
        Hl7MessageSummary::of(msg)
    }
}

impl vstd::std_specs::convert::FromSpecImpl<&Hl7Message> for Hl7MessageSummary {
    open spec fn obeys_from_spec() -> bool {
        true
    }

    open spec fn from_spec(msg: &Hl7Message) -> Self {
        projection(msg)
    }
}

/// The summary that holds the fields of `msg` as they are.
pub open spec fn projection(msg: &Hl7Message) -> Hl7MessageSummary {
    Hl7MessageSummary {
        id: msg.id,
        received_at: msg.received_at,
        source_addr: msg.source_addr,
        message_type: msg.message_type,
        trigger_event: msg.trigger_event,
        message_control_id: msg.message_control_id,
        sending_facility: msg.sending_facility,
        patient_name: msg.patient_name,
        patient_id: msg.patient_id,
        segment_count: msg.segments.len(),
        parse_error: msg.parse_error,
    }
}

impl Clone for Hl7MessageSummary {
    fn clone(&self) -> (r: Self)
        ensures
            r@ == self@,
    {
        Hl7MessageSummary {
            id: self.id.clone(),
            received_at: self.received_at,
            source_addr: self.source_addr.clone(),
            message_type: self.message_type.clone(),
            trigger_event: self.trigger_event.clone(),
            message_control_id: self.message_control_id.clone(),
            sending_facility: self.sending_facility.clone(),
            patient_name: clone_opt(&self.patient_name),
            patient_id: clone_opt(&self.patient_id),
            segment_count: self.segment_count,
            parse_error: clone_opt(&self.parse_error),
        }
    }
}

} // verus!
