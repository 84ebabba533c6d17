//! The HL7 v2 parser: delimiter discovery, segment and field decomposition,
//! and the extraction of routing and patient fields.

use vstd::prelude::*;
use vstd::string::*;
use vstd::utf8::*;
use crate::hl7::types::{
    empty_message, opt_text, segment_views, texts, Delimiters, FieldView, Hl7Field, Hl7Message,
    Hl7Segment, MessageView, SegmentView,
};
use crate::hl7::identity::{
    fresh_uuid, is_control_id, is_stamp, is_uuid_text, lemma_control_id_of_uuid, mint_control_id,
    unix_now, utc_stamp_now,
};
use crate::text::{
    first_break, free_of, is_blank, is_space, is_whitespace, lemma_first_break,
    lemma_split_first_piece, lemma_split_nonempty, push_char, split_by, split_on, split_ranges,
    string_of_range, to_chars, trim, trim_range,
};

verus! {

/// The name of the header segment.
pub open spec fn msh_name() -> Seq<char> {
    seq!['M', 'S', 'H']
}

/// The name of the patient identification segment.
pub open spec fn pid_name() -> Seq<char> {
    seq!['P', 'I', 'D']
}

/// Whether `t` begins with the letters `MSH`.
pub open spec fn starts_with_msh(t: Seq<char>) -> bool {
    t.len() >= 3 && t.subrange(0, 3) == msh_name()
}

/// The delimiters that a message announces: bytes 3 to 7 of its UTF-8 form,
/// each read as one character.
pub open spec fn delimiters_of(t: Seq<char>) -> Delimiters {
    let b = encode_utf8(t);
    Delimiters {
        field: b[3] as char,
        component: b[4] as char,
        repetition: b[5] as char,
        escape: b[6] as char,
        subcomponent: b[7] as char,
    }
}

/// The text of the error for a header that is too short.
pub open spec fn too_short_text() -> Seq<char> {
    "MSH segment too short to extract delimiters"@
}

/// Reads the delimiters from the head of a message. The head must span at
/// least eight bytes.
pub fn parse_delimiters(raw: &str) -> (r: Result<Delimiters, String>)
    ensures
        r is Err <==> encode_utf8(raw@).len() < 8,
        r matches Err(e) ==> e@ == too_short_text(),
        r matches Ok(d) ==> d == delimiters_of(raw@),
{
    let bytes = raw.as_bytes();
    if bytes.len() < 8 {
        return Err("MSH segment too short to extract delimiters".to_owned());
    }
    Ok(
        Delimiters {
            field: bytes[3] as char,
            component: bytes[4] as char,
            repetition: bytes[5] as char,
            escape: bytes[6] as char,
            subcomponent: bytes[7] as char,
        },
    )
}

/// The field with number `index` whose text is `part`.
pub open spec fn field_of(part: Seq<char>, index: nat, d: Delimiters) -> FieldView {
    FieldView { index, value: part, components: split_on(part, d.component) }
}

/// MSH-1: the field that holds the field separator itself.
pub open spec fn separator_field(d: Delimiters) -> FieldView {
    FieldView { index: 1, value: seq![d.field], components: seq![seq![d.field]] }
}

/// The segment that a line of text stands for. The text before the first
/// field separator is the name. In a segment named `MSH` the separator itself
/// is field 1 and the texts that follow are fields 2, 3, ...; in any other
/// segment the texts that follow the name are fields 1, 2, ...
pub open spec fn segment_of(raw: Seq<char>, d: Delimiters) -> SegmentView {
    let parts = split_on(raw, d.field);
    SegmentView {
        name: parts[0],
        fields: if parts[0] == msh_name() {
            Seq::new(
                parts.len(),
                |i: int|
                    if i == 0 {
                        separator_field(d)
                    } else {
                        field_of(parts[i], (i + 1) as nat, d)
                    },
            )
        } else {
            Seq::new((parts.len() - 1) as nat, |i: int| field_of(parts[i + 1], (i + 1) as nat, d))
        },
        raw,
    }
}

/// The field with number `index` whose text is `v[from..to]`.
fn field_in(v: &Vec<char>, from: usize, to: usize, index: usize, d: Delimiters) -> (f: Hl7Field)
    requires
        from <= to <= v@.len(),
    ensures
        f@ == field_of(v@.subrange(from as int, to as int), index as nat, d),
{
    let ranges = split_ranges(v, from, to, d.component, d.component);
    let mut components: Vec<String> = Vec::new();
    let ghost parts = split_on(v@.subrange(from as int, to as int), d.component);
    let mut k: usize = 0;
    while k < ranges.len()
        invariant
            k <= ranges@.len(),
            components@.len() == k,
            ranges@.len() == parts.len(),
            forall|j: int|
                0 <= j < ranges@.len() ==> from <= (#[trigger] ranges@[j]).0 <= ranges@[j].1 <= to
                    && v@.subrange(ranges@[j].0 as int, ranges@[j].1 as int) == parts[j],
            to <= v@.len(),
            forall|j: int| 0 <= j < k ==> components@[j]@ == parts[j],
        decreases ranges@.len() - k,
    {
        let r = ranges[k];
        components.push(string_of_range(v, r.0, r.1));
        k += 1;
    }
    assert(texts(components@) =~= parts);
    Hl7Field { index, value: string_of_range(v, from, to), components }
}

/// Whether `v[from..to]` spells `MSH`.
fn is_msh(v: &Vec<char>, from: usize, to: usize) -> (r: bool)
    requires
        from <= to <= v@.len(),
    ensures
        r == (v@.subrange(from as int, to as int) == msh_name()),
{
    if to - from != 3 {
        assert(msh_name().len() == 3);
        return false;
    }
    let r = v[from] == 'M' && v[from + 1] == 'S' && v[from + 2] == 'H';
    proof {
        let s = v@.subrange(from as int, to as int);
        if r {
            assert(s =~= msh_name());
        } else {
            assert(s[0] == v@[from as int] && s[1] == v@[from + 1] && s[2] == v@[from + 2]);
        }
    }
    r
}

/// The segment that `v[from..to]` stands for.
fn segment_in(v: &Vec<char>, from: usize, to: usize, d: Delimiters) -> (s: Hl7Segment)
    requires
        from <= to <= v@.len(),
    ensures
        s@ == segment_of(v@.subrange(from as int, to as int), d),
{
    let ghost raw = v@.subrange(from as int, to as int);
    let ghost parts = split_on(raw, d.field);
    let ranges = split_ranges(v, from, to, d.field, d.field);
    proof {
        lemma_split_nonempty(raw, d.field, d.field);
    }
    let first = ranges[0];
    let msh = is_msh(v, first.0, first.1);
    let mut fields: Vec<Hl7Field> = Vec::new();
    if msh {
        let mut one: String = String::new();
        push_char(&mut one, d.field);
        let mut comps: Vec<String> = Vec::new();
        comps.push(one.clone());
        let f = Hl7Field { index: 1, value: one, components: comps };
        assert(f@.components =~= seq![seq![d.field]]);
        assert(f@.value =~= seq![d.field]);
        fields.push(f);
    }
    let ghost shift: int = if msh { 1 } else { 0 };
    let mut i: usize = 1;
    while i < ranges.len()
        invariant
            1 <= i <= ranges@.len(),
            ranges@.len() == parts.len(),
            to <= v@.len(),
            forall|j: int|
                0 <= j < ranges@.len() ==> from <= (#[trigger] ranges@[j]).0 <= ranges@[j].1 <= to
                    && v@.subrange(ranges@[j].0 as int, ranges@[j].1 as int) == parts[j],
            shift == (if msh { 1int } else { 0int }),
            fields@.len() == i - 1 + shift,
            msh ==> fields@[0]@ == separator_field(d),
            forall|j: int|
                1 <= j < i ==> (#[trigger] fields@[j - 1 + shift])@ == field_of(
                    parts[j],
                    (j + shift) as nat,
                    d,
                ),
        decreases ranges@.len() - i,
    {
        let r = ranges[i];
        let index: usize = if msh { i + 1 } else { i };
        let f = field_in(v, r.0, r.1, index, d);
        fields.push(f);
        i += 1;
    }
    let s = Hl7Segment {
        name: string_of_range(v, first.0, first.1),
        fields,
        raw: string_of_range(v, from, to),
    };
    proof {
        let want = segment_of(raw, d);
        assert(s@.fields.len() == want.fields.len());
        assert forall|j: int| 0 <= j < want.fields.len() implies s@.fields[j] == want.fields[j] by {
            if msh {
                if j > 0 {
                    assert(fields@[j - 1 + shift]@ == field_of(parts[j], (j + shift) as nat, d));
                }
            } else {
                assert(fields@[(j + 1) - 1 + shift]@ == field_of(
                    parts[j + 1],
                    (j + 1 + shift) as nat,
                    d,
                ));
            }
        }
        assert(s@.fields =~= want.fields);
    }
    s
}

/// Splits one segment into its name and fields.
pub fn parse_segment(raw: &str, delimiters: Delimiters) -> (s: Hl7Segment)
    ensures
        s@ == segment_of(raw@, delimiters),
{
    let v = to_chars(raw);
    assert(v@.subrange(0, v@.len() as int) =~= v@);
    segment_in(&v, 0, v.len(), delimiters)
}

/// The text of the first field of `fields` that carries the number `index`;
/// the empty text when there is none.
pub open spec fn field_value(fields: Seq<FieldView>, index: nat) -> Seq<char>
    decreases fields.len(),
{
    if fields.len() == 0 {
        Seq::<char>::empty()
    } else if fields[0].index == index {
        fields[0].value
    } else {
        field_value(fields.drop_first(), index)
    }
}

/// The text of the field with the HL7 number `index`, empty where the segment
/// has no such field.
pub fn get_field_value(segment: &Hl7Segment, index: usize) -> (r: String)
    ensures
        r@ == field_value(segment@.fields, index as nat),
{
    let n: usize = segment.fields.len();
    let ghost all = segment@.fields;
    let mut i: usize = 0;
    assert(all.subrange(0, n as int) =~= all);
    while i < n
        invariant
            i <= n,
            n == segment.fields@.len(),
            all == segment@.fields,
            field_value(all, index as nat) == field_value(
                all.subrange(i as int, n as int),
                index as nat,
            ),
        decreases n - i,
    {
        assert(all[i as int] == segment.fields@[i as int]@);
        assert(all.subrange(i as int, n as int).drop_first() =~= all.subrange(i + 1, n as int));
        if segment.fields[i].index == index {
            return segment.fields[i].value.clone();
        }
        i += 1;
    }
    String::new()
}

/// The segments that a list of lines stands for: blank lines are dropped,
/// every other line is one segment.
pub open spec fn segments_from(lines: Seq<Seq<char>>, d: Delimiters) -> Seq<SegmentView>
    decreases lines.len(),
{
    if lines.len() == 0 {
        Seq::<SegmentView>::empty()
    } else {
        let head = segments_from(lines.drop_last(), d);
        if is_blank(lines.last()) {
            head
        } else {
            head.push(segment_of(lines.last(), d))
        }
    }
}

/// The segments of a message text: its lines end at a carriage return or a
/// line feed.
pub open spec fn segments_of(t: Seq<char>, d: Delimiters) -> Seq<SegmentView> {
    segments_from(split_by(t, '\r', '\n'), d)
}

/// The first segment of `segs` with the given name.
pub open spec fn first_named(segs: Seq<SegmentView>, name: Seq<char>) -> Option<SegmentView>
    decreases segs.len(),
{
    if segs.len() == 0 {
        None
    } else if segs[0].name == name {
        Some(segs[0])
    } else {
        first_named(segs.drop_first(), name)
    }
}

/// The message type that MSH-9 announces: its first two components joined
/// by `^`, or the first alone where there is no second.
pub open spec fn message_type_of(f9: Seq<char>, d: Delimiters) -> Seq<char> {
    let c = split_on(f9, d.component);
    if c.len() >= 2 {
        c[0] + seq!['^'] + c[1]
    } else {
        c[0]
    }
}

/// The trigger event that MSH-9 announces: its second component, if any.
pub open spec fn trigger_event_of(f9: Seq<char>, d: Delimiters) -> Seq<char> {
    let c = split_on(f9, d.component);
    if c.len() >= 2 {
        c[1]
    } else {
        Seq::<char>::empty()
    }
}

/// The patient identifier of a PID-3 text: its first component; none for an
/// empty text.
pub open spec fn patient_id_of(pid3: Seq<char>, d: Delimiters) -> Option<Seq<char>> {
    if pid3.len() == 0 {
        None
    } else {
        Some(split_on(pid3, d.component)[0])
    }
}

/// The patient name of a PID-5 text: `Family, Given` where it has two
/// components or more, the family name alone where it has one; none for an
/// empty text.
pub open spec fn patient_name_of(pid5: Seq<char>, d: Delimiters) -> Option<Seq<char>> {
    let c = split_on(pid5, d.component);
    if pid5.len() == 0 {
        None
    } else if c.len() >= 2 {
        Some(c[0] + seq![',', ' '] + c[1])
    } else {
        Some(c[0])
    }
}

/// The message that a text of at least eight bytes that begins with `MSH`
/// parses to, once trimmed.
pub open spec fn message_of(
    t: Seq<char>,
    source_addr: Seq<char>,
    id: Seq<char>,
    received_at: i64,
) -> MessageView {
    let d = delimiters_of(t);
    let segs = segments_of(t, d);
    let msh = segs[0].fields;
    let pid = first_named(segs, pid_name());
    MessageView {
        id,
        raw: t,
        received_at,
        source_addr,
        message_type: message_type_of(field_value(msh, 9), d),
        trigger_event: trigger_event_of(field_value(msh, 9), d),
        message_control_id: field_value(msh, 10),
        sending_application: field_value(msh, 3),
        sending_facility: field_value(msh, 4),
        receiving_application: field_value(msh, 5),
        receiving_facility: field_value(msh, 6),
        version: field_value(msh, 12),
        segments: segs,
        patient_name: match pid {
            Some(p) => patient_name_of(field_value(p.fields, 5), d),
            None => None,
        },
        patient_id: match pid {
            Some(p) => patient_id_of(field_value(p.fields, 3), d),
            None => None,
        },
        parse_error: None,
    }
}

/// The text of the error for an empty message.
pub open spec fn empty_text() -> Seq<char> {
    "Empty message"@
}

/// The text of the error for a message that does not begin with `MSH`.
pub open spec fn no_header_text() -> Seq<char> {
    "Message does not start with MSH"@
}

/// Why a text is refused, if it is: it is blank, it does not begin with
/// `MSH` once trimmed, or its trimmed form spans fewer than eight bytes.
pub open spec fn parse_failure(raw: Seq<char>) -> Option<Seq<char>> {
    let t = trim(raw);
    if t.len() == 0 {
        Some(empty_text())
    } else if !starts_with_msh(t) {
        Some(no_header_text())
    } else if encode_utf8(t).len() < 8 {
        Some(too_short_text())
    } else {
        None
    }
}

/// What an accepted text parses to.
pub open spec fn parsed(
    raw: Seq<char>,
    source_addr: Seq<char>,
    id: Seq<char>,
    received_at: i64,
) -> MessageView {
    message_of(trim(raw), source_addr, id, received_at)
}

/// The value of a field whose number no earlier field carries.
pub proof fn lemma_field_value_at(fields: Seq<FieldView>, index: nat, k: int)
    requires
        0 <= k < fields.len(),
        fields[k].index == index,
        forall|j: int| 0 <= j < k ==> (#[trigger] fields[j]).index != index,
    ensures
        field_value(fields, index) == fields[k].value,
    decreases k,
{
    if k > 0 {
        let rest = fields.drop_first();
        assert(rest[k - 1] == fields[k]);
        assert forall|j: int| 0 <= j < k - 1 implies (#[trigger] rest[j]).index != index by {
            assert(rest[j] == fields[j + 1]);
        }
        lemma_field_value_at(rest, index, k - 1);
    }
}

/// The value of a field whose number no field carries is empty.
pub proof fn lemma_field_value_none(fields: Seq<FieldView>, index: nat)
    requires
        forall|j: int| 0 <= j < fields.len() ==> (#[trigger] fields[j]).index != index,
    ensures
        field_value(fields, index) == Seq::<char>::empty(),
    decreases fields.len(),
{
    if fields.len() > 0 {
        let rest = fields.drop_first();
        assert forall|j: int| 0 <= j < rest.len() implies (#[trigger] rest[j]).index != index by {
            assert(rest[j] == fields[j + 1]);
        }
        lemma_field_value_none(rest, index);
    }
}

/// In a header segment the field with the number `n` is the piece `n - 1`
/// of the line.
pub proof fn lemma_header_field(line: Seq<char>, d: Delimiters, n: nat)
    requires
        split_on(line, d.field)[0] == msh_name(),
        2 <= n <= split_on(line, d.field).len(),
    ensures
        field_value(segment_of(line, d).fields, n) == split_on(line, d.field)[n - 1],
{
    let fields = segment_of(line, d).fields;
    lemma_field_value_at(fields, n, n - 1);
}

/// In any other segment the field with the number `n` is the piece `n` of
/// the line.
pub proof fn lemma_plain_field(line: Seq<char>, d: Delimiters, n: nat)
    requires
        split_on(line, d.field)[0] != msh_name(),
        1 <= n < split_on(line, d.field).len(),
    ensures
        field_value(segment_of(line, d).fields, n) == split_on(line, d.field)[n as int],
{
    let fields = segment_of(line, d).fields;
    lemma_field_value_at(fields, n, n - 1);
}

/// The first line that is not blank gives the first segment.
pub proof fn lemma_first_segment_of(lines: Seq<Seq<char>>, d: Delimiters)
    requires
        lines.len() > 0,
        !is_blank(lines[0]),
    ensures
        segments_from(lines, d).len() > 0,
        segments_from(lines, d)[0] == segment_of(lines[0], d),
    decreases lines.len(),
{
    if lines.len() == 1 {
        assert(lines.drop_last().len() == 0);
        assert(segments_from(lines.drop_last(), d) =~= Seq::<SegmentView>::empty());
    } else {
        let head = lines.drop_last();
        assert(head[0] == lines[0]);
        lemma_first_segment_of(head, d);
    }
}

/// The first line of a text that begins with a character that is no
/// whitespace: it is what stands before the first line break, it is not
/// blank, and it gives the first segment.
pub proof fn lemma_first_line(t: Seq<char>, d: Delimiters)
    requires
        t.len() > 0,
        !is_space(t[0]),
    ensures
        first_break(t, '\r', '\n') >= 1,
        split_by(t, '\r', '\n')[0] == t.take(first_break(t, '\r', '\n')),
        free_of(split_by(t, '\r', '\n')[0], '\r', '\n'),
        !is_blank(split_by(t, '\r', '\n')[0]),
        segments_of(t, d).len() > 0,
        segments_of(t, d)[0] == segment_of(split_by(t, '\r', '\n')[0], d),
{
    let k = first_break(t, '\r', '\n');
    lemma_first_break(t, '\r', '\n');
    lemma_split_first_piece(t, '\r', '\n', k);
    lemma_split_nonempty(t, '\r', '\n');
    assert(is_space('\r') && is_space('\n'));
    let line = split_by(t, '\r', '\n')[0];
    assert(line[0] == t[0]);
    lemma_first_segment_of(split_by(t, '\r', '\n'), d);
}

/// Whether `v[from..to]` holds nothing but whitespace.
fn blank_range(v: &Vec<char>, from: usize, to: usize) -> (r: bool)
    requires
        from <= to <= v@.len(),
    ensures
        r == is_blank(v@.subrange(from as int, to as int)),
{
    let ghost s = v@.subrange(from as int, to as int);
    let mut i: usize = from;
    while i < to
        invariant
            from <= i <= to,
            to <= v@.len(),
            s == v@.subrange(from as int, to as int),
            forall|k: int| 0 <= k < i - from ==> is_space(#[trigger] s[k]),
        decreases to - i,
    {
        if !is_whitespace(v[i]) {
            assert(!is_space(s[i - from]));
            return false;
        }
        i += 1;
    }
    true
}

/// The message type and the trigger event that an MSH-9 text announces.
fn split_type(f9: &str, d: Delimiters) -> (r: (String, String))
    ensures
        r.0@ == message_type_of(f9@, d),
        r.1@ == trigger_event_of(f9@, d),
{
    let v = to_chars(f9);
    assert(v@.subrange(0, v@.len() as int) =~= v@);
    let ranges = split_ranges(&v, 0, v.len(), d.component, d.component);
    proof {
        lemma_split_nonempty(v@, d.component, d.component);
    }
    let first = string_of_range(&v, ranges[0].0, ranges[0].1);
    if ranges.len() >= 2 {
        let second = string_of_range(&v, ranges[1].0, ranges[1].1);
        let mut kind = first;
        push_char(&mut kind, '^');
        kind.append(second.as_str());
        (kind, second)
    } else {
        (first, String::new())
    }
}

/// The patient identifier that a PID-3 text holds.
fn patient_id_in(pid3: &str, d: Delimiters) -> (r: Option<String>)
    ensures
        opt_text(r) == patient_id_of(pid3@, d),
{
    let v = to_chars(pid3);
    if v.len() == 0 {
        return None;
    }
    assert(v@.subrange(0, v@.len() as int) =~= v@);
    let ranges = split_ranges(&v, 0, v.len(), d.component, d.component);
    proof {
        lemma_split_nonempty(v@, d.component, d.component);
    }
    Some(string_of_range(&v, ranges[0].0, ranges[0].1))
}

/// The patient name that a PID-5 text holds.
fn patient_name_in(pid5: &str, d: Delimiters) -> (r: Option<String>)
    ensures
        opt_text(r) == patient_name_of(pid5@, d),
{
    let v = to_chars(pid5);
    if v.len() == 0 {
        return None;
    }
    assert(v@.subrange(0, v@.len() as int) =~= v@);
    let ranges = split_ranges(&v, 0, v.len(), d.component, d.component);
    proof {
        lemma_split_nonempty(v@, d.component, d.component);
    }
    let mut name = string_of_range(&v, ranges[0].0, ranges[0].1);
    if ranges.len() >= 2 {
        let given = string_of_range(&v, ranges[1].0, ranges[1].1);
        push_char(&mut name, ',');
        push_char(&mut name, ' ');
        name.append(given.as_str());
        proof {
            let c = split_on(v@, d.component);
            assert(name@ =~= c[0] + seq![',', ' '] + c[1]);
        }
    }
    Some(name)
}

/// The position in `segs` of the first segment named `PID`.
fn find_pid(segs: &Vec<Hl7Segment>) -> (r: Option<usize>)
    ensures
        r matches Some(i) ==> i < segs@.len() && first_named(segment_views(segs@), pid_name())
            == Some(segs@[i as int]@),
        r is None ==> first_named(segment_views(segs@), pid_name()) is None,
{
    let ghost all = segment_views(segs@);
    let n: usize = segs.len();
    let mut i: usize = 0;
    assert(all.subrange(0, n as int) =~= all);
    while i < n
        invariant
            i <= n,
            n == segs@.len(),
            all == segment_views(segs@),
            first_named(all, pid_name()) == first_named(
                all.subrange(i as int, n as int),
                pid_name(),
            ),
        decreases n - i,
    {
        assert(all[i as int] == segs@[i as int]@);
        assert(all.subrange(i as int, n as int).drop_first() =~= all.subrange(i + 1, n as int));
        let name = to_chars(segs[i].name.as_str());
        let hit = name.len() == 3 && name[0] == 'P' && name[1] == 'I' && name[2] == 'D';
        proof {
            if hit {
                assert(name@ =~= pid_name());
            } else {
                assert(pid_name().len() == 3);
                assert(pid_name()[0] == 'P' && pid_name()[1] == 'I' && pid_name()[2] == 'D');
            }
        }
        if hit {
            return Some(i);
        }
        i += 1;
    }
    None
}

/// Parses a message text, giving the message the identity and the arrival
/// time handed in. The text is trimmed first. It is refused when nothing is
/// left, when it does not begin with `MSH`, or when it spans fewer than eight
/// bytes; every other text parses.
pub fn parse_with(raw: &str, source_addr: &str, id: String, received_at: i64) -> (r: Result<
    Hl7Message,
    String,
>)
    ensures
        r is Err <==> parse_failure(raw@) is Some,
        r matches Err(e) ==> Some(e@) == parse_failure(raw@),
        r matches Ok(m) ==> m@ == parsed(raw@, source_addr@, id@, received_at),
{
    let v = to_chars(raw);
    let (a, b) = trim_range(&v);
    let ghost t = trim(raw@);
    if a == b {
        return Err("Empty message".to_owned());
    }
    let head_ok = b - a >= 3 && v[a] == 'M' && v[a + 1] == 'S' && v[a + 2] == 'H';
    proof {
        if head_ok {
            assert(t.subrange(0, 3) =~= msh_name());
        } else if t.len() >= 3 {
            let h = t.subrange(0, 3);
            assert(h[0] == t[0] && h[1] == t[1] && h[2] == t[2]);
            assert(msh_name()[0] == 'M' && msh_name()[1] == 'S' && msh_name()[2] == 'H');
        }
    }
    if !head_ok {
        return Err("Message does not start with MSH".to_owned());
    }
    let body = raw.substring_char(a, b);
    let d = match parse_delimiters(body) {
        Ok(d) => d,
        Err(e) => {
            return Err(e);
        },
    };
    let lines = split_ranges(&v, a, b, '\r', '\n');
    let ghost pieces = split_by(t, '\r', '\n');
    let mut segments: Vec<Hl7Segment> = Vec::new();
    let mut k: usize = 0;
    assert(pieces.take(0) =~= Seq::<Seq<char>>::empty());
    assert(segment_views(segments@) =~= Seq::<SegmentView>::empty());
    while k < lines.len()
        invariant
            k <= lines@.len(),
            lines@.len() == pieces.len(),
            b <= v@.len(),
            forall|j: int|
                0 <= j < lines@.len() ==> a <= (#[trigger] lines@[j]).0 <= lines@[j].1 <= b
                    && v@.subrange(lines@[j].0 as int, lines@[j].1 as int) == pieces[j],
            segment_views(segments@) == segments_from(pieces.take(k as int), d),
        decreases lines@.len() - k,
    {
        let line = lines[k];
        proof {
            assert(pieces.take(k + 1).drop_last() =~= pieces.take(k as int));
            assert(pieces.take(k + 1).last() == pieces[k as int]);
        }
        if !blank_range(&v, line.0, line.1) {
            let ghost before = segment_views(segments@);
            let seg = segment_in(&v, line.0, line.1, d);
            segments.push(seg);
            assert(segment_views(segments@) =~= before.push(segment_of(pieces[k as int], d)));
        }
        k += 1;
    }
    assert(pieces.take(k as int) =~= pieces);
    let mut msg = Hl7Message::with_identity(
        body.to_owned(),
        source_addr.to_owned(),
        id,
        received_at,
    );
    if segments.len() > 0 {
        let msh = &segments[0];
        assert(segment_views(segments@)[0] == msh@);
        msg.sending_application = get_field_value(msh, 3);
        msg.sending_facility = get_field_value(msh, 4);
        msg.receiving_application = get_field_value(msh, 5);
        msg.receiving_facility = get_field_value(msh, 6);
        let f9 = get_field_value(msh, 9);
        let (kind, event) = split_type(f9.as_str(), d);
        msg.message_type = kind;
        msg.trigger_event = event;
        msg.message_control_id = get_field_value(msh, 10);
        msg.version = get_field_value(msh, 12);
    } else {
        proof {
            lemma_first_line(t, d);
        }
    }
    match find_pid(&segments) {
        Some(i) => {
            let pid = &segments[i];
            let pid3 = get_field_value(pid, 3);
            msg.patient_id = patient_id_in(pid3.as_str(), d);
            let pid5 = get_field_value(pid, 5);
            msg.patient_name = patient_name_in(pid5.as_str(), d);
        },
        None => {},
    }
    msg.segments = segments;
    Ok(msg)
}

/// Parses a message text that arrived from `source_addr`. The message gets a
/// fresh random identity and the current time; everything else is decided by
/// the text, as in [`parse_with`].
pub fn parse_message(raw: &str, source_addr: &str) -> (r: Result<Hl7Message, String>)
    ensures
        r is Err <==> parse_failure(raw@) is Some,
        r matches Err(e) ==> Some(e@) == parse_failure(raw@),
        r matches Ok(m) ==> m@ == parsed(raw@, source_addr@, m@.id, m@.received_at)
            && is_uuid_text(m@.id),
{
    let id = fresh_uuid();
    let now = unix_now();
    parse_with(raw, source_addr, id, now)
}

/// The head of every acknowledgment: the standard delimiters and this
/// receiver's name as sending application and facility.
pub open spec fn ack_head() -> Seq<char> {
    "MSH|^~\\&|HL7Forge|HL7Forge|"@
}

/// The acknowledgment of `m` with the given code, time stamp and control id:
/// a header segment that turns the sender of `m` into the receiver, names
/// the type `ACK` with the trigger event of `m` and repeats its version, a
/// carriage return, and the segment `MSA` with the code and the control id
/// of `m`.
pub open spec fn ack_text(
    m: MessageView,
    code: Seq<char>,
    stamp: Seq<char>,
    control_id: Seq<char>,
) -> Seq<char> {
    ack_head() + m.sending_application + "|"@ + m.sending_facility + "|"@ + stamp + "||ACK^"@
        + m.trigger_event + "|"@ + control_id + "|P|"@ + m.version + "\rMSA|"@ + code + "|"@
        + m.message_control_id
}

/// Writes the acknowledgment of `received` with the given code, time stamp
/// and control id.
pub fn render_ack(received: &Hl7Message, ack_code: &str, stamp: &str, control_id: &str) -> (r:
    String)
    ensures
        r@ == ack_text(received@, ack_code@, stamp@, control_id@),
{
    let mut s: String = "MSH|^~\\&|HL7Forge|HL7Forge|".to_owned();
    s.append(received.sending_application.as_str());
    s.append("|");
    s.append(received.sending_facility.as_str());
    s.append("|");
    s.append(stamp);
    s.append("||ACK^");
    s.append(received.trigger_event.as_str());
    s.append("|");
    s.append(control_id);
    s.append("|P|");
    s.append(received.version.as_str());
    s.append("\rMSA|");
    s.append(ack_code);
    s.append("|");
    s.append(received.message_control_id.as_str());
    s
}

/// Builds the acknowledgment of a received message, stamped with the current
/// time and carrying a freshly drawn control id of 20 hexadecimal digits.
pub fn build_ack(received: &Hl7Message, ack_code: &str) -> (r: String)
    ensures
        exists|stamp: Seq<char>, control_id: Seq<char>|
            #![trigger ack_text(received@, ack_code@, stamp, control_id)]
            r@ == ack_text(received@, ack_code@, stamp, control_id) && is_stamp(stamp)
                && is_control_id(control_id),
{
    let stamp = utc_stamp_now();
    let uuid = fresh_uuid();
    let control_id = mint_control_id(uuid.as_str());
    proof {
        lemma_control_id_of_uuid(uuid@);
    }
    let r = render_ack(received, ack_code, stamp.as_str(), control_id.as_str());
    assert(r@ == ack_text(received@, ack_code@, stamp@, control_id@));
    r
}

/// The text of the negative acknowledgment for a payload that did not parse.
pub open spec fn default_nack_text() -> Seq<char> {
    "MSH|^~\\&|HL7Forge|HL7Forge|||||ACK||P|2.5\rMSA|AE|UNKNOWN|Message parse error"@
}

/// The negative acknowledgment sent for a payload that did not parse: code
/// `AE`, the control id `UNKNOWN` and version 2.5.
pub fn default_nack() -> (r: String)
    ensures
        r@ == default_nack_text(),
{
    "MSH|^~\\&|HL7Forge|HL7Forge|||||ACK||P|2.5\rMSA|AE|UNKNOWN|Message parse error".to_owned()
}

impl Hl7Message {
    /// A message that holds `raw` and `source_addr`, a fresh random identity
    /// and the current time, and no parsed content.
    pub fn new_empty(raw: String, source_addr: String) -> (m: Self)
        ensures
            m@ == empty_message(raw@, source_addr@, m@.id, m@.received_at),
            is_uuid_text(m@.id),
    {
        Hl7Message::with_identity(raw, source_addr, fresh_uuid(), unix_now())
    }
}

} // verus!
