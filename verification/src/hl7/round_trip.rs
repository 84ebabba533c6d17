//! What holds of the parser and the acknowledgment builder together.

use vstd::prelude::*;
use vstd::utf8::{encode_scalar, encode_utf8};
use crate::hl7::identity::{is_control_id, is_lower_hex, is_stamp, is_stamp_char};
use crate::hl7::parser::{
    ack_head, ack_text, delimiters_of, field_value, lemma_field_value_at, lemma_field_value_none,
    lemma_first_line, lemma_header_field, lemma_plain_field, message_of, message_type_of,
    msh_name, parse_failure, parsed, segment_of, segments_from, segments_of, separator_field,
    trigger_event_of,
};
use crate::hl7::types::{default_delimiters, Delimiters, MessageView, SegmentView};
use crate::text::{
    first_break, free_of, is_blank, is_space, join, lemma_char_bounds, lemma_first_break,
    lemma_join_free, lemma_join_next, lemma_join_step, lemma_pieces_free, lemma_pieces_keep_out,
    lemma_split_first_piece, lemma_split_join, lemma_split_nonempty, lemma_split_of_join,
    lemma_split_whole, split_by, split_on, trim, trim_end, trim_start,
};

verus! {

/// Whether the first `n` characters of `s` are ASCII.
pub open spec fn ascii_prefix(s: Seq<char>, n: int) -> bool {
    &&& 0 <= n <= s.len()
    &&& forall|i: int| 0 <= i < n ==> #[trigger] s[i] <= '\x7f'
}

/// The UTF-8 form of a text that begins with ASCII characters begins with
/// one byte for each of them.
pub proof fn lemma_ascii_prefix_bytes(s: Seq<char>, n: int)
    requires
        ascii_prefix(s, n),
    ensures
        encode_utf8(s).len() >= n,
        forall|i: int| 0 <= i < n ==> (#[trigger] encode_utf8(s)[i]) as char == s[i],
    decreases n,
{
    if n > 0 {
        lemma_char_bounds(s[0]);
        let c: u32 = s[0] as u32;
        let rest = s.drop_first();
        assert(ascii_prefix(rest, n - 1)) by {
            assert forall|i: int| 0 <= i < n - 1 implies #[trigger] rest[i] <= '\x7f' by {
                assert(rest[i] == s[i + 1]);
            }
        }
        lemma_ascii_prefix_bytes(rest, n - 1);
        assert(s[0] <= '\x7f');
        assert(c <= 0x7F);
        assert((c & 0x7F) as u8 == c) by (bit_vector)
            requires
                c <= 0x7F,
        ;
        assert(encode_scalar(c) =~= seq![c as u8]);
        let b = encode_utf8(s);
        assert(b == encode_scalar(c) + encode_utf8(rest));
        assert(b[0] == c as u8);
        assert(b[0] as char == s[0]);
        assert forall|i: int| 0 <= i < n implies (#[trigger] b[i]) as char == s[i] by {
            if i > 0 {
                assert(b[i] == encode_utf8(rest)[i - 1]);
                assert(rest[i - 1] == s[i]);
            }
        }
    }
}

/// Field 1 of the header is the field separator. An accepted text whose
/// fourth character is an ASCII character other than `M`, `S` and `H` opens
/// with a segment named `MSH`, whose first field carries the number 1 and
/// holds the separator that the text announces, as a text of one character.
pub proof fn lemma_msh_field_one(
    raw: Seq<char>,
    source_addr: Seq<char>,
    id: Seq<char>,
    received_at: i64,
)
    requires
        parse_failure(raw) is None,
        trim(raw)[3] <= '\x7f',
        trim(raw)[3] != 'M' && trim(raw)[3] != 'S' && trim(raw)[3] != 'H',
    ensures
        delimiters_of(trim(raw)).field == trim(raw)[3],
        parsed(raw, source_addr, id, received_at).segments.len() > 0,
        parsed(raw, source_addr, id, received_at).segments[0].name == msh_name(),
        parsed(raw, source_addr, id, received_at).segments[0].fields[0] == separator_field(
            delimiters_of(trim(raw)),
        ),
        field_value(parsed(raw, source_addr, id, received_at).segments[0].fields, 1) == seq![
            trim(raw)[3],
        ],
{
    let t = trim(raw);
    let d = delimiters_of(t);
    let b = encode_utf8(t);
    assert(t.subrange(0, 3) == msh_name());
    assert(t[0] == t.subrange(0, 3)[0] && t[1] == t.subrange(0, 3)[1] && t[2] == t.subrange(
        0,
        3,
    )[2]);
    assert(t[0] == 'M' && t[1] == 'S' && t[2] == 'H');
    assert(t.len() >= 4) by {
        if t.len() == 3 {
            assert(ascii_prefix(t, 3));
            assert(t =~= msh_name());
            vstd::utf8::is_ascii_chars_encode_utf8(t);
        }
    }
    assert(ascii_prefix(t, 4));
    lemma_ascii_prefix_bytes(t, 4);
    assert(b[3] as char == t[3]);
    let sep = d.field;
    assert(sep == t[3]);
    assert(!is_space('M'));
    lemma_first_line(t, d);
    let k = first_break(t, '\r', '\n');
    lemma_first_break(t, '\r', '\n');
    let line = split_by(t, '\r', '\n')[0];
    assert(k >= 3) by {
        if k < 3 {
            assert(t[k] == '\r' || t[k] == '\n');
        }
    }
    assert(line.take(3) =~= msh_name());
    assert(free_of(line.take(3), sep, sep));
    if k > 3 {
        assert(line[3] == t[3]);
    }
    lemma_split_first_piece(line, sep, sep, 3);
    lemma_split_nonempty(line, sep, sep);
    let fields = segment_of(line, d).fields;
    assert(fields[0] == separator_field(d));
    lemma_field_value_at(fields, 1, 0);
}

/// Whether `s` holds no field separator `|` and no line break.
pub open spec fn plain(s: Seq<char>) -> bool {
    free_of(s, '|', '|') && free_of(s, '\r', '\n')
}

/// The fields of the header line of an acknowledgment, from the segment
/// name on.
pub open spec fn ack_header_pieces(m: MessageView, stamp: Seq<char>, control_id: Seq<char>) -> Seq<
    Seq<char>,
> {
    seq![
        msh_name(),
        seq!['^', '~', '\\', '&'],
        seq!['H', 'L', '7', 'F', 'o', 'r', 'g', 'e'],
        seq!['H', 'L', '7', 'F', 'o', 'r', 'g', 'e'],
        m.sending_application,
        m.sending_facility,
        stamp,
        Seq::<char>::empty(),
        seq!['A', 'C', 'K', '^'] + m.trigger_event,
        control_id,
        seq!['P'],
        m.version,
    ]
}

/// The fields of the second line of an acknowledgment, from the segment
/// name on.
pub open spec fn ack_msa_pieces(m: MessageView, code: Seq<char>) -> Seq<Seq<char>> {
    seq![seq!['M', 'S', 'A'], code, m.message_control_id]
}

/// An acknowledgment is its header fields joined by `|`, a carriage return,
/// and its `MSA` fields joined by `|`.
pub proof fn lemma_ack_lines(
    m: MessageView,
    code: Seq<char>,
    stamp: Seq<char>,
    control_id: Seq<char>,
)
    ensures
        ack_text(m, code, stamp, control_id) == join(ack_header_pieces(m, stamp, control_id), '|')
            + seq!['\r'] + join(ack_msa_pieces(m, code), '|'),
        ack_text(m, code, stamp, control_id).len() >= 9,
        ack_text(m, code, stamp, control_id).take(9) == seq![
            'M',
            'S',
            'H',
            '|',
            '^',
            '~',
            '\\',
            '&',
            '|',
        ],
        ack_text(m, code, stamp, control_id).last() == if m.message_control_id.len() > 0 {
            m.message_control_id.last()
        } else {
            '|'
        },
        join(ack_header_pieces(m, stamp, control_id), '|').len() > 0,
        join(ack_header_pieces(m, stamp, control_id), '|')[0] == 'M',
        join(ack_msa_pieces(m, code), '|').len() > 0,
        join(ack_msa_pieces(m, code), '|')[0] == 'M',
{
    reveal_strlit("MSH|^~\\&|HL7Forge|HL7Forge|");
    reveal_strlit("|");
    reveal_strlit("||ACK^");
    reveal_strlit("|P|");
    reveal_strlit("\rMSA|");
    let h = ack_header_pieces(m, stamp, control_id);
    let bar = seq!['|'];
    let j1 = h[0] + bar + h[1];
    let j2 = j1 + bar + h[2];
    let j3 = j2 + bar + h[3];
    let j4 = j3 + bar + h[4];
    let j5 = j4 + bar + h[5];
    let j6 = j5 + bar + h[6];
    let j7 = j6 + bar + h[7];
    let j8 = j7 + bar + h[8];
    let j9 = j8 + bar + h[9];
    let j10 = j9 + bar + h[10];
    let j11 = j10 + bar + h[11];
    assert(join(h, '|') == j11) by {
        lemma_join_step(h.take(2), '|');
        assert(h.take(2).drop_last() =~= h.take(1));
        assert(join(h.take(1), '|') == h[0]);
        assert(join(h.take(2), '|') == j1);
        lemma_join_next(h, '|', 2);
        lemma_join_next(h, '|', 3);
        lemma_join_next(h, '|', 4);
        lemma_join_next(h, '|', 5);
        lemma_join_next(h, '|', 6);
        lemma_join_next(h, '|', 7);
        lemma_join_next(h, '|', 8);
        lemma_join_next(h, '|', 9);
        lemma_join_next(h, '|', 10);
        lemma_join_next(h, '|', 11);
        assert(h.take(12) =~= h);
    }
    let a = ack_msa_pieces(m, code);
    assert(join(a, '|') == a[0] + bar + a[1] + bar + a[2]) by {
        assert(a.take(2).drop_last() =~= a.take(1));
        assert(join(a.take(1), '|') == a[0]);
        lemma_join_step(a.take(2), '|');
        lemma_join_next(a, '|', 2);
        assert(a.take(3) =~= a);
    }
    let head = ack_head();
    assert(head =~= j3 + bar);
    let s1 = head + m.sending_application;
    assert(s1 =~= j4);
    let s2 = s1 + "|"@ + m.sending_facility;
    assert(s2 =~= j5);
    let s3 = s2 + "|"@ + stamp;
    assert(s3 =~= j6);
    let s4 = s3 + "||ACK^"@ + m.trigger_event;
    assert(s4 =~= j8);
    let s5 = s4 + "|"@ + control_id;
    assert(s5 =~= j9);
    let s6 = s5 + "|P|"@ + m.version;
    assert(s6 =~= j11);
    let s7 = s6 + "\rMSA|"@ + code;
    assert(s7 =~= j11 + seq!['\r'] + (a[0] + bar + a[1]));
    let s8 = s7 + "|"@ + m.message_control_id;
    assert(s8 =~= j11 + seq!['\r'] + (a[0] + bar + a[1] + bar + a[2]));
    assert(s8.take(9) =~= seq!['M', 'S', 'H', '|', '^', '~', '\\', '&', '|']);
    assert(j11[0] == 'M');
    assert((a[0] + bar + a[1] + bar + a[2])[0] == 'M');
}

/// Digits and signs are plain.
pub proof fn lemma_stamp_is_plain(s: Seq<char>)
    requires
        is_stamp(s),
    ensures
        plain(s),
{
    assert forall|i: int| 0 <= i < s.len() implies #[trigger] s[i] != '|' && s[i] != '\r' && s[i]
        != '\n' by {
        assert(is_stamp_char(s[i]));
    }
}

/// Hexadecimal digits are plain.
pub proof fn lemma_control_id_is_plain(s: Seq<char>)
    requires
        is_control_id(s),
    ensures
        plain(s),
{
    assert forall|i: int| 0 <= i < s.len() implies #[trigger] s[i] != '|' && s[i] != '\r' && s[i]
        != '\n' by {
        assert(is_lower_hex(s[i]));
    }
}

/// What the requirements of the round trip ask of the message acknowledged
/// and of the code: the fields repeated hold no `|` and no line break, the
/// trigger event holds no `^`, and the control id does not end in whitespace.
pub open spec fn fit_for_ack(m: MessageView, code: Seq<char>) -> bool {
    &&& plain(m.sending_application)
    &&& plain(m.sending_facility)
    &&& plain(m.trigger_event)
    &&& plain(m.version)
    &&& plain(m.message_control_id)
    &&& plain(code)
    &&& free_of(m.trigger_event, '^', '^')
    &&& m.message_control_id.len() > 0 ==> !is_space(m.message_control_id.last())
}

/// An acknowledgment is accepted as it stands: there is nothing to trim, it
/// begins with `MSH`, and it announces the standard delimiters.
pub proof fn lemma_ack_accepted(
    m: MessageView,
    code: Seq<char>,
    stamp: Seq<char>,
    control_id: Seq<char>,
)
    requires
        m.message_control_id.len() > 0 ==> !is_space(m.message_control_id.last()),
    ensures
        trim(ack_text(m, code, stamp, control_id)) == ack_text(m, code, stamp, control_id),
        parse_failure(ack_text(m, code, stamp, control_id)) is None,
        delimiters_of(ack_text(m, code, stamp, control_id)) == default_delimiters(),
{
    let a = ack_text(m, code, stamp, control_id);
    lemma_ack_lines(m, code, stamp, control_id);
    let head = a.take(9);
    assert(a[0] == head[0] && a[1] == head[1] && a[2] == head[2] && a[3] == head[3] && a[4]
        == head[4] && a[5] == head[5] && a[6] == head[6] && a[7] == head[7]);
    assert(!is_space('M') && !is_space('|'));
    assert(trim_start(a) == a);
    assert(trim_end(a) == a);
    assert(a.subrange(0, 3) =~= msh_name());
    assert(ascii_prefix(a, 8));
    lemma_ascii_prefix_bytes(a, 8);
    let b = encode_utf8(a);
    assert(b[3] as char == a[3]);
    assert(b[4] as char == a[4]);
    assert(b[5] as char == a[5]);
    assert(b[6] as char == a[6]);
    assert(b[7] as char == a[7]);
}

/// The pieces of the two lines of an acknowledgment are the fields they
/// were joined from.
pub proof fn lemma_ack_pieces(
    m: MessageView,
    code: Seq<char>,
    stamp: Seq<char>,
    control_id: Seq<char>,
)
    requires
        fit_for_ack(m, code),
        is_stamp(stamp),
        is_control_id(control_id),
    ensures
        split_on(join(ack_header_pieces(m, stamp, control_id), '|'), '|') == ack_header_pieces(
            m,
            stamp,
            control_id,
        ),
        split_on(join(ack_msa_pieces(m, code), '|'), '|') == ack_msa_pieces(m, code),
        free_of(join(ack_header_pieces(m, stamp, control_id), '|'), '\r', '\n'),
        free_of(join(ack_msa_pieces(m, code), '|'), '\r', '\n'),
{
    let h = ack_header_pieces(m, stamp, control_id);
    let msa = ack_msa_pieces(m, code);
    lemma_stamp_is_plain(stamp);
    lemma_control_id_is_plain(control_id);
    assert forall|k: int| 0 <= k < h[8].len() implies #[trigger] h[8][k] != '|' && h[8][k] != '\r'
        && h[8][k] != '\n' by {
        if k >= 4 {
            assert(h[8][k] == m.trigger_event[k - 4]);
        }
    }
    assert(free_of(h[8], '|', '|') && free_of(h[8], '\r', '\n'));
    assert forall|i: int| 0 <= i < h.len() implies free_of(#[trigger] h[i], '|', '|') by {}
    assert forall|i: int| 0 <= i < h.len() implies free_of(#[trigger] h[i], '\r', '\n') by {}
    assert forall|i: int| 0 <= i < msa.len() implies free_of(#[trigger] msa[i], '|', '|') by {}
    assert forall|i: int| 0 <= i < msa.len() implies free_of(#[trigger] msa[i], '\r', '\n') by {}
    lemma_split_of_join(h, '|');
    lemma_split_of_join(msa, '|');
    lemma_join_free(h, '|', '\r', '\n');
    lemma_join_free(msa, '|', '\r', '\n');
}

/// An acknowledgment has two segments, one for each of its lines.
pub proof fn lemma_ack_segments(
    m: MessageView,
    code: Seq<char>,
    stamp: Seq<char>,
    control_id: Seq<char>,
    d: Delimiters,
)
    requires
        fit_for_ack(m, code),
        is_stamp(stamp),
        is_control_id(control_id),
    ensures
        segments_of(ack_text(m, code, stamp, control_id), d) == seq![
            segment_of(join(ack_header_pieces(m, stamp, control_id), '|'), d),
            segment_of(join(ack_msa_pieces(m, code), '|'), d),
        ],
{
    let a = ack_text(m, code, stamp, control_id);
    let l1 = join(ack_header_pieces(m, stamp, control_id), '|');
    let l2 = join(ack_msa_pieces(m, code), '|');
    lemma_ack_lines(m, code, stamp, control_id);
    lemma_ack_pieces(m, code, stamp, control_id);
    lemma_split_whole(l1, '\r', '\n');
    lemma_split_whole(l2, '\r', '\n');
    lemma_split_join(l1, '\r', l2, '\r', '\n');
    let lines = split_by(a, '\r', '\n');
    assert(lines =~= seq![l1, l2]);
    assert(!is_space('M'));
    assert(!is_blank(l1));
    assert(!is_blank(l2));
    assert(lines.drop_last() =~= seq![l1]);
    assert(seq![l1].drop_last() =~= Seq::<Seq<char>>::empty());
    assert(segments_from(Seq::<Seq<char>>::empty(), d) =~= Seq::<SegmentView>::empty());
    assert(segments_from(seq![l1], d) =~= seq![segment_of(l1, d)]);
    assert(segments_from(lines, d) =~= seq![segment_of(l1, d), segment_of(l2, d)]);
}

/// The type and the trigger event that the ninth header field of an
/// acknowledgment announces.
pub proof fn lemma_ack_type(event: Seq<char>, d: Delimiters)
    requires
        free_of(event, '^', '^'),
        d.component == '^',
    ensures
        message_type_of(seq!['A', 'C', 'K', '^'] + event, d) == seq!['A', 'C', 'K', '^'] + event,
        trigger_event_of(seq!['A', 'C', 'K', '^'] + event, d) == event,
{
    let ack = seq!['A', 'C', 'K'];
    let f9 = seq!['A', 'C', 'K', '^'] + event;
    assert(f9 =~= ack + seq!['^'] + event);
    lemma_split_whole(ack, '^', '^');
    lemma_split_whole(event, '^', '^');
    lemma_split_join(ack, '^', event, '^', '^');
    assert(split_on(f9, '^') =~= seq![ack, event]);
    assert(ack + seq!['^'] + event =~= f9);
}

/// An acknowledgment parses back to what it was built from. Where the fields
/// of `m` that it repeats and the code hold no `|` and no line break, the
/// trigger event holds no `^`, and the control id of `m` does not end in
/// whitespace, the text that acknowledges `m` is accepted by the parser; the
/// message it parses to carries the freshly drawn control id, the version
/// and the trigger event of `m`, the type `ACK`, and the sender of `m` as
/// its receiver; and the first two fields of its second segment, `MSA`, are
/// the code and the control id of `m`.
pub proof fn lemma_ack_round_trip(
    m: MessageView,
    code: Seq<char>,
    stamp: Seq<char>,
    control_id: Seq<char>,
    source_addr: Seq<char>,
    id: Seq<char>,
    received_at: i64,
)
    requires
        fit_for_ack(m, code),
        is_stamp(stamp),
        is_control_id(control_id),
    ensures
        parse_failure(ack_text(m, code, stamp, control_id)) is None,
        ({
            let p = parsed(ack_text(m, code, stamp, control_id), source_addr, id, received_at);
            &&& p.message_control_id == control_id
            &&& p.version == m.version
            &&& p.trigger_event == m.trigger_event
            &&& p.message_type == seq!['A', 'C', 'K', '^'] + m.trigger_event
            &&& p.receiving_application == m.sending_application
            &&& p.receiving_facility == m.sending_facility
            &&& p.segments.len() == 2
            &&& p.segments[0].name == msh_name()
            &&& p.segments[1].name == seq!['M', 'S', 'A']
            &&& field_value(p.segments[1].fields, 1) == code
            &&& field_value(p.segments[1].fields, 2) == m.message_control_id
        }),
{
    let a = ack_text(m, code, stamp, control_id);
    let h = ack_header_pieces(m, stamp, control_id);
    let msa = ack_msa_pieces(m, code);
    let l1 = join(h, '|');
    let l2 = join(msa, '|');
    let d = default_delimiters();
    lemma_ack_accepted(m, code, stamp, control_id);
    lemma_ack_pieces(m, code, stamp, control_id);
    lemma_ack_segments(m, code, stamp, control_id, d);
    let p = parsed(a, source_addr, id, received_at);
    assert(p == message_of(a, source_addr, id, received_at));
    assert(p.segments == seq![segment_of(l1, d), segment_of(l2, d)]);
    let msh = segment_of(l1, d).fields;
    assert(p.segments[0].fields == msh);
    assert(split_on(l1, d.field) == h);
    assert(split_on(l2, d.field) == msa);
    assert(field_value(msh, 5) == h[4]) by {
        lemma_header_field(l1, d, 5);
    }
    assert(field_value(msh, 6) == h[5]) by {
        lemma_header_field(l1, d, 6);
    }
    assert(field_value(msh, 9) == h[8]) by {
        lemma_header_field(l1, d, 9);
    }
    assert(field_value(msh, 10) == h[9]) by {
        lemma_header_field(l1, d, 10);
    }
    assert(field_value(msh, 12) == h[11]) by {
        lemma_header_field(l1, d, 12);
    }
    lemma_ack_type(m.trigger_event, d);
    assert(msa[0] != msh_name()) by {
        assert(msa[0][2] == 'A');
        assert(msh_name()[2] == 'H');
    }
    assert(field_value(segment_of(l2, d).fields, 1) == msa[1]) by {
        lemma_plain_field(l2, d, 1);
    }
    assert(field_value(segment_of(l2, d).fields, 2) == msa[2]) by {
        lemma_plain_field(l2, d, 2);
    }
}

/// A field from the second on holds no field separator, and nothing that
/// its line does not hold.
pub proof fn lemma_field_is_plain(line: Seq<char>, d: Delimiters, n: nat)
    requires
        n >= 2,
        d.field == '|',
        free_of(line, '\r', '\n'),
    ensures
        plain(field_value(segment_of(line, d).fields, n)),
{
    let parts = split_on(line, d.field);
    let fields = segment_of(line, d).fields;
    lemma_split_nonempty(line, d.field, d.field);
    lemma_pieces_free(line, '|', '|');
    lemma_pieces_keep_out(line, '|', '|', '\r', '\n');
    if parts[0] == msh_name() {
        if n <= parts.len() {
            lemma_header_field(line, d, n);
            assert(plain(parts[n - 1]));
        } else {
            lemma_field_value_none(fields, n);
        }
    } else {
        if n < parts.len() {
            lemma_plain_field(line, d, n);
            assert(plain(parts[n as int]));
        } else {
            lemma_field_value_none(fields, n);
        }
    }
}

/// The trigger event of a plain field is plain and holds no `^`.
pub proof fn lemma_trigger_is_plain(f9: Seq<char>, d: Delimiters)
    requires
        plain(f9),
        d.component == '^',
    ensures
        plain(trigger_event_of(f9, d)),
        free_of(trigger_event_of(f9, d), '^', '^'),
{
    lemma_pieces_free(f9, '^', '^');
    lemma_pieces_keep_out(f9, '^', '^', '|', '|');
    lemma_pieces_keep_out(f9, '^', '^', '\r', '\n');
    let c = split_on(f9, '^');
    if c.len() >= 2 {
        assert(free_of(c[1], '^', '^'));
        assert(free_of(c[1], '|', '|'));
        assert(free_of(c[1], '\r', '\n'));
    }
}

/// Every message that the parser returns for a text with the separators `|`
/// and `^` can be acknowledged and the acknowledgment parsed back, unless
/// its control id ends in whitespace: the fields that an acknowledgment
/// repeats hold no `|`, no line break and, for the trigger event, no `^`.
pub proof fn lemma_parsed_fit_for_ack(
    raw: Seq<char>,
    source_addr: Seq<char>,
    id: Seq<char>,
    received_at: i64,
    code: Seq<char>,
)
    requires
        parse_failure(raw) is None,
        delimiters_of(trim(raw)).field == '|',
        delimiters_of(trim(raw)).component == '^',
        plain(code),
        ({
            let c = parsed(raw, source_addr, id, received_at).message_control_id;
            c.len() > 0 ==> !is_space(c.last())
        }),
    ensures
        fit_for_ack(parsed(raw, source_addr, id, received_at), code),
{
    let t = trim(raw);
    let d = delimiters_of(t);
    let lines = split_by(t, '\r', '\n');
    assert(t.subrange(0, 3) == msh_name());
    assert(t[0] == t.subrange(0, 3)[0]);
    assert(t[0] == 'M');
    assert(!is_space('M'));
    lemma_first_line(t, d);
    let line = lines[0];
    lemma_field_is_plain(line, d, 3);
    lemma_field_is_plain(line, d, 4);
    lemma_field_is_plain(line, d, 9);
    lemma_field_is_plain(line, d, 10);
    lemma_field_is_plain(line, d, 12);
    lemma_trigger_is_plain(field_value(segment_of(line, d).fields, 9), d);
}

} // verus!
