//! What is written reads back: the proofs that tie the two halves of the
//! codec together.

use crate::parser::common::{
    label_len, lemma_boundary_after_ascii, lemma_label_closed, lemma_name_within,
    lemma_u16_bytes_read,
    lemma_u32_bytes_read, lemma_unvisited_shrinks, spec_encode_labels, spec_encode_name,
    spec_label_error, spec_name_error, spec_parse_name, spec_pointer, spec_record, spec_u16_at,
    spec_u16_bytes, spec_u32_at, spec_u32_bytes, spec_walk_name, suffix_key, unvisited, DNSError,
    DOT, MAX_NAME_LEN, POINTER_LIMIT, POINTER_TAG,
};
use crate::parser::header::{
    lemma_header_roundtrip, lemma_parsed_header_fits, spec_header_bytes, spec_header_wf,
    spec_parse_header, HEADER_LEN,
};
use crate::parser::packet::{
    lemma_parsed_counts, spec_counted_header, spec_parse_packet, spec_serialize_packet,
    PacketView, MAX_SECTION_LEN,
};
use crate::parser::question::{
    spec_encode_question, spec_encode_questions, spec_parse_question, spec_parse_questions,
    QuestionView,
};
use crate::parser::record::mx_record::{spec_parse_mx, spec_serialize_mx, MXView};
use crate::parser::record::ns_record::{spec_parse_single_name, spec_serialize_single_name};
use crate::parser::record::soa_record::{
    spec_parse_soa, spec_serialize_soa, spec_soa_numbers, SOAView, SOA_NUMBERS_LEN,
};
use crate::parser::record::txt_record::{
    spec_encode_segments, spec_parse_segments, MAX_SEGMENT_LEN,
};
use crate::parser::record::{
    spec_encode_record, spec_encode_records, spec_parse_record, spec_parse_record_data,
    spec_parse_records, spec_rtype_matches, spec_serialize_record_data, RecordDataView,
    RecordView, MAX_RDATA_LEN, RECORD_FIXED_LEN,
};
use vstd::prelude::*;
use vstd::utf8::*;

verus! {

/// `pre` is the beginning of `data`.
pub open spec fn spec_begins(data: Seq<u8>, pre: Seq<u8>) -> bool {
    &&& pre.len() <= data.len()
    &&& forall|i: int| 0 <= i < pre.len() ==> data[i] == pre[i]
}

/// A name that is read in a packet is read in the same way in every packet
/// that begins with it, whatever offsets beyond the first packet the walk
/// has been at before, and with less text read before it.
pub proof fn lemma_walk_frame(
    pre: Seq<u8>,
    data: Seq<u8>,
    pos: int,
    seen: Set<int>,
    visited: Set<int>,
    before: int,
    used: int,
)
    requires
        spec_begins(data, pre),
        spec_walk_name(pre, pos, seen, before) is Ok,
        forall|p: int| 0 <= p < pre.len() && visited.contains(p) ==> seen.contains(p),
        used <= before,
    ensures
        spec_walk_name(data, pos, visited, used) == spec_walk_name(pre, pos, seen, before),
    decreases unvisited(pre.len(), seen).len(),
{
    lemma_unvisited_shrinks(pre.len(), seen, pos);
    if pre[pos] == 0 {
    } else if pre[pos] < 64 {
        let n = pre[pos] as int;
        lemma_walk_frame(
            pre,
            data,
            pos + 1 + n,
            seen.insert(pos),
            visited.insert(pos),
            before + n + 1,
            used + n + 1,
        );
        assert(data.subrange(pos + 1, pos + 1 + n) =~= pre.subrange(pos + 1, pos + 1 + n));
    } else {
        let target = (pre[pos] - POINTER_TAG) * 256 + pre[pos + 1];
        lemma_walk_frame(pre, data, target, seen.insert(pos), visited.insert(pos), before, used);
    }
}

/// The text of a suffix that begins with a label is the text of the label,
/// a dot, and the text of the suffix behind the dot; and these are UTF-8 as
/// the whole is.
pub proof fn lemma_suffix_text(bytes: Seq<u8>, i: int)
    requires
        0 <= i < bytes.len(),
        bytes.last() == DOT,
        valid_utf8(bytes.subrange(i, bytes.len() as int)),
    ensures
        ({
            let n = label_len(bytes, i);
            &&& i + n < bytes.len()
            &&& bytes[i + n] == DOT
            &&& valid_utf8(bytes.subrange(i, i + n))
            &&& valid_utf8(bytes.subrange(i + n + 1, bytes.len() as int))
            &&& suffix_key(bytes, i) == decode_utf8(bytes.subrange(i, i + n)).push('.')
                + suffix_key(bytes, i + n + 1)
        }),
{
    let n = label_len(bytes, i) as int;
    lemma_label_closed(bytes, i);
    let whole = bytes.subrange(i, bytes.len() as int);
    assert(whole[n] == DOT);
    lemma_boundary_after_ascii(whole, n);
    valid_utf8_split(whole, n + 1);
    decode_utf8_split(whole, n + 1);
    let head = whole.subrange(0, n + 1);
    let tail = whole.subrange(n + 1, whole.len() as int);
    assert(tail =~= bytes.subrange(i + n + 1, bytes.len() as int));
    assert(head[n] == DOT);
    is_char_boundary_iff_not_is_continuation_byte(head, n);
    valid_utf8_split(head, n);
    decode_utf8_split(head, n);
    let label = head.subrange(0, n);
    let dot = head.subrange(n, head.len() as int);
    assert(label =~= bytes.subrange(i, i + n));
    assert(dot =~= seq![DOT]);
    assert(decode_utf8(dot) =~= seq!['.']) by {
        reveal_with_fuel(decode_utf8, 2);
        assert(pop_first_scalar(dot) =~= Seq::<u8>::empty());
        assert(0x2Eu8 & 0x7F == 0x2E) by (bit_vector);
        assert(decode_first_scalar(dot) == 0x2E);
    }
    assert(decode_utf8(label).push('.') =~= decode_utf8(label) + seq!['.']);
    assert(decode_utf8(whole) =~= (decode_utf8(label) + seq!['.']) + decode_utf8(tail));
}

/// The suffix `key` was written at `offset` of `buf`: the name read there
/// has this text, and takes no more room than the bytes of the text.
pub open spec fn spec_entry_sound(buf: Seq<u8>, key: Seq<char>, offset: int) -> bool {
    let room = MAX_NAME_LEN - encode_utf8(key).len();
    &&& 0 <= offset < buf.len()
    &&& offset < POINTER_LIMIT
    &&& 0 <= room
    &&& spec_walk_name(buf, offset, Set::empty(), room) is Ok
    &&& spec_walk_name(buf, offset, Set::empty(), room)->Ok_0.0 == key
}

/// Every suffix of the map was written in `buf` at the offset that the map
/// holds for it.
pub open spec fn spec_map_sound(buf: Seq<u8>, map: Map<Seq<char>, usize>) -> bool {
    forall|k: Seq<char>| #[trigger]
        map.contains_key(k) ==> spec_entry_sound(buf, k, map[k] as int)
}

/// The labels of a name without fault, written behind `buf`, read back as
/// the text of the suffix they stand for.
///
/// The name began at `start`. The map may hold suffixes of this name that
/// were recorded since: they are longer than the one at `i`. Every other
/// suffix of the map was written before `start`.
pub proof fn lemma_labels_read_back(
    buf: Seq<u8>,
    bytes: Seq<u8>,
    i: int,
    map: Map<Seq<char>, usize>,
    start: int,
    ext: Seq<u8>,
    visited: Set<int>,
    used: int,
)
    requires
        0 <= i <= bytes.len() <= MAX_NAME_LEN,
        bytes.len() > 0,
        bytes.last() == DOT,
        valid_utf8(bytes.subrange(i, bytes.len() as int)),
        spec_label_error(bytes, i) is None,
        0 <= start <= buf.len(),
        forall|k: Seq<char>| #[trigger]
            map.contains_key(k) && map[k] < start ==> spec_entry_sound(
                buf.subrange(0, start),
                k,
                map[k] as int,
            ),
        forall|k: Seq<char>| #[trigger]
            map.contains_key(k) && map[k] >= start ==> encode_utf8(k).len() > bytes.len() - i,
        forall|p: int| visited.contains(p) ==> start <= p < buf.len(),
        used <= MAX_NAME_LEN - (bytes.len() - i),
    ensures
        ({
            let out = spec_encode_labels(bytes, i, map, buf.len() as int).0;
            spec_walk_name(buf + out + ext, buf.len() as int, visited, used) == Ok::<
                (Seq<char>, int),
                DNSError,
            >((suffix_key(bytes, i), out.len() as int))
        }),
    decreases bytes.len() - i,
{
    let pos = buf.len() as int;
    let out = spec_encode_labels(bytes, i, map, pos).0;
    let data = buf + out + ext;
    let suffix = bytes.subrange(i, bytes.len() as int);
    let key = suffix_key(bytes, i);
    if i >= bytes.len() {
        assert(data[pos] == 0);
        assert(suffix =~= Seq::<u8>::empty());
        assert(key =~= Seq::<char>::empty());
    } else {
        decode_utf8_encode_utf8(suffix);
        if map.contains_key(key) {
            let t = map[key] as int;
            let base = buf.subrange(0, start);
            assert(spec_entry_sound(base, key, t));
            assert(out == spec_pointer(t));
            assert(data[pos] == (POINTER_TAG + t / 256) as u8);
            assert(data[pos + 1] == (t % 256) as u8);
            assert((data[pos] - POINTER_TAG) * 256 + data[pos + 1] == t);
            lemma_walk_frame(
                base,
                data,
                t,
                Set::empty(),
                visited.insert(pos),
                MAX_NAME_LEN - suffix.len(),
                used,
            );
        } else {
            let n = label_len(bytes, i) as int;
            lemma_suffix_text(bytes, i);
            let label = bytes.subrange(i, i + n);
            let map1 = spec_record(map, key, pos);
            let buf1 = buf + seq![n as u8] + label;
            let tail = spec_encode_labels(bytes, i + n + 1, map1, pos + n + 1).0;
            assert(out == seq![n as u8] + label + tail);
            assert(buf1.subrange(0, start) =~= buf.subrange(0, start));
            assert(buf1 + tail + ext =~= data);
            lemma_labels_read_back(
                buf1,
                bytes,
                i + n + 1,
                map1,
                start,
                ext,
                visited.insert(pos),
                used + n + 1,
            );
            assert(data[pos] == n as u8);
            assert(data.subrange(pos + 1, pos + 1 + n) =~= label);
        }
    }
}

/// The labels of a name without fault, written behind `buf`, leave a map
/// in which every suffix either was there before, at the same offset, or
/// was written where the map says.
pub proof fn lemma_labels_keep_sound(
    buf: Seq<u8>,
    bytes: Seq<u8>,
    i: int,
    map: Map<Seq<char>, usize>,
    start: int,
)
    requires
        0 <= i <= bytes.len() <= MAX_NAME_LEN,
        bytes.len() > 0,
        bytes.last() == DOT,
        valid_utf8(bytes.subrange(i, bytes.len() as int)),
        spec_label_error(bytes, i) is None,
        0 <= start <= buf.len(),
        forall|k: Seq<char>| #[trigger]
            map.contains_key(k) && map[k] < start ==> spec_entry_sound(
                buf.subrange(0, start),
                k,
                map[k] as int,
            ),
        forall|k: Seq<char>| #[trigger]
            map.contains_key(k) && map[k] >= start ==> encode_utf8(k).len() > bytes.len() - i,
    ensures
        ({
            let (out, last) = spec_encode_labels(bytes, i, map, buf.len() as int);
            forall|k: Seq<char>| #[trigger]
                last.contains_key(k) ==> (map.contains_key(k) && last[k] == map[k])
                    || spec_entry_sound(buf + out, k, last[k] as int)
        }),
    decreases bytes.len() - i,
{
    let pos = buf.len() as int;
    let (out, last) = spec_encode_labels(bytes, i, map, pos);
    let suffix = bytes.subrange(i, bytes.len() as int);
    let key = suffix_key(bytes, i);
    if i < bytes.len() && !map.contains_key(key) {
        decode_utf8_encode_utf8(suffix);
        let n = label_len(bytes, i) as int;
        lemma_suffix_text(bytes, i);
        let label = bytes.subrange(i, i + n);
        let map1 = spec_record(map, key, pos);
        let buf1 = buf + seq![n as u8] + label;
        let tail = spec_encode_labels(bytes, i + n + 1, map1, pos + n + 1).0;
        assert(buf1.subrange(0, start) =~= buf.subrange(0, start));
        assert(buf1 + tail =~= buf + out);
        lemma_labels_keep_sound(buf1, bytes, i + n + 1, map1, start);
        lemma_labels_read_back(
            buf,
            bytes,
            i,
            map,
            start,
            Seq::empty(),
            Set::empty(),
            MAX_NAME_LEN - suffix.len(),
        );
        assert(buf + out + Seq::<u8>::empty() =~= buf + out);
        assert forall|k: Seq<char>| #[trigger] last.contains_key(k) implies (map.contains_key(k)
            && last[k] == map[k]) || spec_entry_sound(buf + out, k, last[k] as int) by {
            if map1.contains_key(k) && last[k] == map1[k] && !map.contains_key(k) {
                assert(k == key);
            }
        }
    }
}

/// Suffixes that were written in a packet stay written in every packet that
/// begins with it.
pub proof fn lemma_sound_extends(buf: Seq<u8>, map: Map<Seq<char>, usize>, data: Seq<u8>)
    requires
        spec_map_sound(buf, map),
        spec_begins(data, buf),
    ensures
        spec_map_sound(data, map),
{
    assert forall|k: Seq<char>| #[trigger] map.contains_key(k) implies spec_entry_sound(
        data,
        k,
        map[k] as int,
    ) by {
        let room = MAX_NAME_LEN - encode_utf8(k).len();
        lemma_walk_frame(buf, data, map[k] as int, Set::empty(), Set::empty(), room, room);
    }
}

/// The text of the single dot.
pub proof fn lemma_dot_text()
    ensures
        valid_utf8(seq![DOT]),
        decode_utf8(seq![DOT]) == seq!['.'],
{
    let dot = seq![DOT];
    reveal_with_fuel(valid_utf8, 2);
    reveal_with_fuel(decode_utf8, 2);
    assert(pop_first_scalar(dot) =~= Seq::<u8>::empty());
    assert(0x2Eu8 & 0x7F == 0x2E) by (bit_vector);
    assert(decode_first_scalar(dot) == 0x2E);
    assert(decode_utf8(dot) =~= seq!['.']);
}

/// A name that can be written and read: it has no fault, and no more than
/// 255 bytes.
pub open spec fn spec_name_ok(name: Seq<char>) -> bool {
    &&& spec_name_error(encode_utf8(name)) is None
    &&& encode_utf8(name).len() <= MAX_NAME_LEN
}

/// A name that is written behind `buf` reads back as itself, whatever is
/// written behind it, and every suffix of the map is then written where the
/// map says: a pointer leads to an earlier offset at which its suffix reads
/// back.
pub proof fn lemma_name_reads_back(
    buf: Seq<u8>,
    name: Seq<char>,
    map: Map<Seq<char>, usize>,
    ext: Seq<u8>,
)
    requires
        spec_map_sound(buf, map),
        spec_name_ok(name),
    ensures
        spec_encode_name(encode_utf8(name), map, buf.len() as int) is Ok,
        ({
            let (out, last) = spec_encode_name(encode_utf8(name), map, buf.len() as int)->Ok_0;
            &&& out.len() > 0
            &&& spec_map_sound(buf + out, last)
            &&& spec_parse_name(buf + out + ext, buf.len() as int) == Ok::<
                (Seq<char>, int),
                DNSError,
            >((name, out.len() as int))
        }),
{
    reveal(spec_encode_name);
    reveal(spec_parse_name);
    let bytes = encode_utf8(name);
    let pos = buf.len() as int;
    let (out, last) = spec_encode_name(bytes, map, pos)->Ok_0;
    encode_utf8_valid_utf8(name);
    encode_utf8_decode_utf8(name);
    if bytes.len() == 1 {
        assert(bytes =~= seq![DOT]);
        lemma_dot_text();
        assert((buf + out + ext)[pos] == 0);
        lemma_sound_extends(buf, map, buf + out);
    } else {
        assert(bytes.subrange(0, bytes.len() as int) =~= bytes);
        assert(buf.subrange(0, pos) =~= buf);
        lemma_labels_read_back(buf, bytes, 0, map, pos, ext, Set::empty(), 0);
        lemma_labels_keep_sound(buf, bytes, 0, map, pos);
        lemma_sound_extends(buf, map, buf + out);
        assert(name.len() > 0) by {
            if name.len() == 0 {
                assert(encode_utf8(name) =~= Seq::<u8>::empty());
            }
        }
    }
}

/// A name takes at most one byte more on the wire than its dotted text.
pub proof fn lemma_labels_len(bytes: Seq<u8>, i: int, map: Map<Seq<char>, usize>, pos: int)
    requires
        0 <= i <= bytes.len(),
        bytes.len() > 0,
        bytes.last() == DOT,
        spec_label_error(bytes, i) is None,
    ensures
        0 < spec_encode_labels(bytes, i, map, pos).0.len() <= bytes.len() - i + 1,
    decreases bytes.len() - i,
{
    if i < bytes.len() {
        lemma_label_closed(bytes, i);
        if !map.contains_key(suffix_key(bytes, i)) {
            let n = label_len(bytes, i) as int;
            lemma_labels_len(
                bytes,
                i + n + 1,
                spec_record(map, suffix_key(bytes, i), pos),
                pos + n + 1,
            );
        }
    }
}

/// A name takes at most one byte more on the wire than its dotted text.
pub proof fn lemma_name_len(name: Seq<char>, map: Map<Seq<char>, usize>, pos: int)
    requires
        spec_name_ok(name),
    ensures
        spec_encode_name(encode_utf8(name), map, pos) is Ok,
        0 < spec_encode_name(encode_utf8(name), map, pos)->Ok_0.0.len() <= MAX_NAME_LEN + 1,
{
    reveal(spec_encode_name);
    if encode_utf8(name).len() > 1 {
        lemma_labels_len(encode_utf8(name), 0, map, pos);
    }
}

/// A question that can be written and read.
pub open spec fn spec_question_ok(q: QuestionView) -> bool {
    spec_name_ok(q.name)
}

/// A question that is written behind `buf` reads back as itself, whatever is
/// written behind it, and the map stays true of what is written.
pub proof fn lemma_question_reads_back(
    buf: Seq<u8>,
    q: QuestionView,
    map: Map<Seq<char>, usize>,
    ext: Seq<u8>,
)
    requires
        spec_map_sound(buf, map),
        spec_question_ok(q),
    ensures
        spec_encode_question(q, map, buf.len() as int).0 is Ok,
        ({
            let (out, last) = spec_encode_question(q, map, buf.len() as int);
            &&& spec_map_sound(buf + out->Ok_0, last)
            &&& spec_parse_question(buf + out->Ok_0 + ext, buf.len() as int) == Ok::<
                (QuestionView, int),
                DNSError,
            >((q, out->Ok_0.len() as int))
        }),
{
    reveal(spec_encode_question);
    reveal(spec_parse_question);
    let pos = buf.len() as int;
    let fields = spec_u16_bytes(q.rtype) + spec_u16_bytes(q.class);
    lemma_name_reads_back(buf, q.name, map, fields + ext);
    let (name, last) = spec_encode_name(encode_utf8(q.name), map, pos)->Ok_0;
    let out = name + spec_u16_bytes(q.rtype) + spec_u16_bytes(q.class);
    let data = buf + out + ext;
    assert(data =~= buf + name + (fields + ext));
    let at = pos + name.len();
    assert(data.subrange(at, at + 2) =~= spec_u16_bytes(q.rtype));
    assert(data.subrange(at + 2, at + 4) =~= spec_u16_bytes(q.class));
    lemma_u16_bytes_read(q.rtype, data, at);
    lemma_u16_bytes_read(q.class, data, at + 2);
    lemma_sound_extends(buf + name, last, buf + out);
}

/// Questions that can be written and read.
pub open spec fn spec_questions_ok(qs: Seq<QuestionView>) -> bool {
    forall|i: int| 0 <= i < qs.len() ==> spec_question_ok(#[trigger] qs[i])
}

/// Questions that are written behind `buf` read back as themselves,
/// whatever is written behind them, and the map stays true of what is
/// written.
pub proof fn lemma_questions_read_back(
    buf: Seq<u8>,
    qs: Seq<QuestionView>,
    map: Map<Seq<char>, usize>,
    ext: Seq<u8>,
)
    requires
        spec_map_sound(buf, map),
        spec_questions_ok(qs),
    ensures
        spec_encode_questions(qs, map, buf.len() as int).0 is Ok,
        ({
            let (out, last) = spec_encode_questions(qs, map, buf.len() as int);
            &&& spec_map_sound(buf + out->Ok_0, last)
            &&& spec_parse_questions(buf + out->Ok_0 + ext, buf.len() as int, qs.len()) == Ok::<
                (Seq<QuestionView>, int),
                DNSError,
            >((qs, out->Ok_0.len() as int))
        }),
    decreases qs.len(),
{
    let pos = buf.len() as int;
    if qs.len() == 0 {
        assert(buf + Seq::<u8>::empty() =~= buf);
        assert(qs =~= Seq::<QuestionView>::empty());
    } else {
        let (first, after) = spec_encode_question(qs[0], map, pos);
        lemma_question_reads_back(buf, qs[0], map, Seq::empty());
        let first = first->Ok_0;
        let (rest, last) = spec_encode_questions(qs.drop_first(), after, pos + first.len());
        assert(buf + first + Seq::<u8>::empty() =~= buf + first);
        lemma_questions_read_back(buf + first, qs.drop_first(), after, ext);
        let rest = rest->Ok_0;
        lemma_question_reads_back(buf, qs[0], map, rest + ext);
        assert(buf + first + (rest + ext) =~= buf + (first + rest) + ext);
        assert(buf + first + rest + ext =~= buf + (first + rest) + ext);
        assert(buf + first + rest =~= buf + (first + rest));
        assert(seq![qs[0]] + qs.drop_first() =~= qs);
    }
}

/// Byte strings of up to 255 bytes each.
pub open spec fn spec_segments_ok(segments: Seq<Seq<u8>>) -> bool {
    forall|i: int| 0 <= i < segments.len() ==> (#[trigger] segments[i]).len() <= MAX_SEGMENT_LEN
}

/// Byte strings that are written behind `buf` read back as themselves.
pub proof fn lemma_segments_read_back(buf: Seq<u8>, segments: Seq<Seq<u8>>, ext: Seq<u8>)
    requires
        spec_segments_ok(segments),
    ensures
        spec_encode_segments(segments) is Ok,
        ({
            let out = spec_encode_segments(segments)->Ok_0;
            spec_parse_segments(
                buf + out + ext,
                buf.len() as int,
                (buf.len() + out.len()) as int,
            )
                == Ok::<Seq<Seq<u8>>, DNSError>(segments)
        }),
    decreases segments.len(),
{
    let pos = buf.len() as int;
    if segments.len() == 0 {
        assert(segments =~= Seq::<Seq<u8>>::empty());
    } else {
        let first = seq![segments[0].len() as u8] + segments[0];
        lemma_segments_read_back(buf + first, segments.drop_first(), ext);
        let rest = spec_encode_segments(segments.drop_first())->Ok_0;
        let out = spec_encode_segments(segments)->Ok_0;
        assert(out =~= first + rest);
        let data = buf + out + ext;
        assert(data =~= buf + first + rest + ext);
        assert(data[pos] == segments[0].len() as u8);
        assert(data.subrange(pos + 1, pos + 1 + segments[0].len()) =~= segments[0]);
        assert(seq![segments[0]] + segments.drop_first() =~= segments);
    }
}

/// Record data that can be written and read as data of the type `rtype`:
/// the type is that of the variant, addresses have their length, names are
/// without fault, byte strings have up to 255 bytes, and the whole fits the
/// 16 bits of its length.
pub open spec fn spec_record_data_ok(rtype: u16, record: RecordDataView) -> bool {
    &&& spec_rtype_matches(rtype, record)
    &&& match record {
        RecordDataView::A(ip) => ip.len() == 4,
        RecordDataView::NS(name) => spec_name_ok(name),
        RecordDataView::CNAME(name) => spec_name_ok(name),
        RecordDataView::SOA(v) => spec_name_ok(v.mname) && spec_name_ok(v.rname),
        RecordDataView::MX(v) => spec_name_ok(v.exchange),
        RecordDataView::TXT(segments) => spec_segments_ok(segments) && spec_encode_segments(
            segments,
        )->Ok_0.len() <= MAX_RDATA_LEN,
        RecordDataView::AAAA(ip) => ip.len() == 16,
        RecordDataView::Unknown(bytes) => bytes.len() <= MAX_RDATA_LEN,
    }
}

/// A name that is written behind `buf` as the whole of the data of a record
/// reads back as itself.
pub proof fn lemma_single_name_reads_back(
    buf: Seq<u8>,
    name: Seq<char>,
    map: Map<Seq<char>, usize>,
    ext: Seq<u8>,
)
    requires
        spec_map_sound(buf, map),
        spec_name_ok(name),
    ensures
        spec_serialize_single_name(name, map, buf.len() as int).0 is Ok,
        ({
            let (out, last) = spec_serialize_single_name(name, map, buf.len() as int);
            &&& out->Ok_0.len() <= MAX_NAME_LEN + 1
            &&& spec_map_sound(buf + out->Ok_0, last)
            &&& spec_parse_single_name(
                buf + out->Ok_0 + ext,
                buf.len() as int,
                out->Ok_0.len() as int,
            ) == Ok::<Seq<char>, DNSError>(name)
        }),
{
    lemma_name_reads_back(buf, name, map, ext);
    lemma_name_len(name, map, buf.len() as int);
}

/// The data of an MX record that is written behind `buf` reads back as
/// itself.
pub proof fn lemma_mx_reads_back(
    buf: Seq<u8>,
    v: MXView,
    map: Map<Seq<char>, usize>,
    ext: Seq<u8>,
)
    requires
        spec_map_sound(buf, map),
        spec_name_ok(v.exchange),
    ensures
        spec_serialize_mx(v, map, buf.len() as int).0 is Ok,
        ({
            let (out, last) = spec_serialize_mx(v, map, buf.len() as int);
            &&& out->Ok_0.len() <= MAX_NAME_LEN + 3
            &&& spec_map_sound(buf + out->Ok_0, last)
            &&& spec_parse_mx(buf + out->Ok_0 + ext, buf.len() as int, out->Ok_0.len() as int)
                == Ok::<MXView, DNSError>(v)
        }),
{
    let pos = buf.len() as int;
    let head = spec_u16_bytes(v.preference);
    lemma_sound_extends(buf, map, buf + head);
    lemma_name_reads_back(buf + head, v.exchange, map, ext);
    lemma_name_len(v.exchange, map, pos + 2);
    let (name, last) = spec_encode_name(encode_utf8(v.exchange), map, pos + 2)->Ok_0;
    let out = head + name;
    let data = buf + out + ext;
    assert(data =~= buf + head + name + ext);
    assert(buf + head + name =~= buf + out);
    assert(data.subrange(pos, pos + 2) =~= head);
    lemma_u16_bytes_read(v.preference, data, pos);
}

/// The five numbers of an SOA record are those that their twenty bytes
/// stand for.
pub proof fn lemma_soa_numbers_read(data: Seq<u8>, at: int, v: SOAView)
    requires
        0 <= at,
        at + SOA_NUMBERS_LEN <= data.len(),
        data.subrange(at, at + SOA_NUMBERS_LEN) == spec_soa_numbers(v),
    ensures
        spec_u32_at(data, at) == v.serial,
        spec_u32_at(data, at + 4) == v.refresh,
        spec_u32_at(data, at + 8) == v.retry,
        spec_u32_at(data, at + 12) == v.expire,
        spec_u32_at(data, at + 16) == v.minimum,
{
    let numbers = data.subrange(at, at + SOA_NUMBERS_LEN);
    assert(numbers.subrange(0, 4) =~= spec_u32_bytes(v.serial));
    assert(numbers.subrange(4, 8) =~= spec_u32_bytes(v.refresh));
    assert(numbers.subrange(8, 12) =~= spec_u32_bytes(v.retry));
    assert(numbers.subrange(12, 16) =~= spec_u32_bytes(v.expire));
    assert(numbers.subrange(16, 20) =~= spec_u32_bytes(v.minimum));
    assert(data.subrange(at, at + 4) =~= numbers.subrange(0, 4));
    assert(data.subrange(at + 4, at + 8) =~= numbers.subrange(4, 8));
    assert(data.subrange(at + 8, at + 12) =~= numbers.subrange(8, 12));
    assert(data.subrange(at + 12, at + 16) =~= numbers.subrange(12, 16));
    assert(data.subrange(at + 16, at + 20) =~= numbers.subrange(16, 20));
    lemma_u32_bytes_read(v.serial, data, at);
    lemma_u32_bytes_read(v.refresh, data, at + 4);
    lemma_u32_bytes_read(v.retry, data, at + 8);
    lemma_u32_bytes_read(v.expire, data, at + 12);
    lemma_u32_bytes_read(v.minimum, data, at + 16);
}

/// The data of an SOA record that is written behind `buf` reads back as
/// itself.
pub proof fn lemma_soa_reads_back(
    buf: Seq<u8>,
    v: SOAView,
    map: Map<Seq<char>, usize>,
    ext: Seq<u8>,
)
    requires
        spec_map_sound(buf, map),
        spec_name_ok(v.mname),
        spec_name_ok(v.rname),
    ensures
        spec_serialize_soa(v, map, buf.len() as int).0 is Ok,
        ({
            let (out, last) = spec_serialize_soa(v, map, buf.len() as int);
            &&& out->Ok_0.len() <= 2 * MAX_NAME_LEN + 2 + SOA_NUMBERS_LEN
            &&& spec_map_sound(buf + out->Ok_0, last)
            &&& spec_parse_soa(buf + out->Ok_0 + ext, buf.len() as int, out->Ok_0.len() as int)
                == Ok::<SOAView, DNSError>(v)
        }),
{
    let pos = buf.len() as int;
    let numbers = spec_soa_numbers(v);
    lemma_name_len(v.mname, map, pos);
    let (first, mid) = spec_encode_name(encode_utf8(v.mname), map, pos)->Ok_0;
    lemma_name_len(v.rname, mid, pos + first.len());
    let (second, last) = spec_encode_name(encode_utf8(v.rname), mid, pos + first.len())->Ok_0;
    let out = first + second + numbers;
    let data = buf + out + ext;
    let at = pos + first.len() + second.len();
    assert(numbers.len() == SOA_NUMBERS_LEN);
    assert(spec_parse_name(data, pos) == Ok::<(Seq<char>, int), DNSError>(
        (v.mname, first.len() as int),
    )) by {
        lemma_name_reads_back(buf, v.mname, map, second + numbers + ext);
        assert(buf + first + (second + numbers + ext) =~= data);
    }
    assert(spec_map_sound(buf + first, mid)) by {
        lemma_name_reads_back(buf, v.mname, map, Seq::empty());
    }
    assert(spec_parse_name(data, pos + first.len()) == Ok::<(Seq<char>, int), DNSError>(
        (v.rname, second.len() as int),
    ) && spec_map_sound(buf + first + second, last)) by {
        lemma_name_reads_back(buf + first, v.rname, mid, numbers + ext);
        assert(buf + first + second + (numbers + ext) =~= data);
    }
    assert(spec_map_sound(buf + out, last)) by {
        lemma_sound_extends(buf + first + second, last, buf + out);
    }
    assert(spec_u32_at(data, at) == v.serial && spec_u32_at(data, at + 4) == v.refresh
        && spec_u32_at(data, at + 8) == v.retry && spec_u32_at(data, at + 12) == v.expire
        && spec_u32_at(data, at + 16) == v.minimum) by {
        assert(data.subrange(at, at + SOA_NUMBERS_LEN) =~= numbers);
        lemma_soa_numbers_read(data, at, v);
    }
}

/// Record data that is written behind `buf` reads back as itself, whatever
/// is written behind it, and the map stays true of what is written.
pub proof fn lemma_record_data_reads_back(
    buf: Seq<u8>,
    rtype: u16,
    record: RecordDataView,
    map: Map<Seq<char>, usize>,
    ext: Seq<u8>,
)
    requires
        spec_map_sound(buf, map),
        spec_record_data_ok(rtype, record),
    ensures
        spec_serialize_record_data(record, map, buf.len() as int).0 is Ok,
        ({
            let (out, last) = spec_serialize_record_data(record, map, buf.len() as int);
            &&& out->Ok_0.len() <= MAX_RDATA_LEN
            &&& spec_map_sound(buf + out->Ok_0, last)
            &&& spec_parse_record_data(
                buf + out->Ok_0 + ext,
                rtype,
                buf.len() as int,
                out->Ok_0.len() as int,
            ) == Ok::<RecordDataView, DNSError>(record)
        }),
{
    reveal(spec_parse_record_data);
    reveal(spec_serialize_record_data);
    let pos = buf.len() as int;
    let (out, last) = spec_serialize_record_data(record, map, pos);
    match record {
        RecordDataView::A(ip) => {
            lemma_sound_extends(buf, map, buf + ip);
            assert((buf + ip + ext).subrange(pos, pos + 4) =~= ip);
        },
        RecordDataView::AAAA(ip) => {
            lemma_sound_extends(buf, map, buf + ip);
            assert((buf + ip + ext).subrange(pos, pos + 16) =~= ip);
        },
        RecordDataView::Unknown(bytes) => {
            lemma_sound_extends(buf, map, buf + bytes);
            assert((buf + bytes + ext).subrange(pos, pos + bytes.len()) =~= bytes);
        },
        RecordDataView::TXT(segments) => {
            lemma_segments_read_back(buf, segments, ext);
            lemma_sound_extends(buf, map, buf + out->Ok_0);
        },
        RecordDataView::NS(name) => {
            lemma_single_name_reads_back(buf, name, map, ext);
        },
        RecordDataView::CNAME(name) => {
            lemma_single_name_reads_back(buf, name, map, ext);
        },
        RecordDataView::MX(v) => {
            lemma_mx_reads_back(buf, v, map, ext);
        },
        RecordDataView::SOA(v) => {
            lemma_soa_reads_back(buf, v, map, ext);
        },
    }
}

/// A record that can be written and read.
pub open spec fn spec_record_ok(r: RecordView) -> bool {
    &&& spec_name_ok(r.name)
    &&& spec_record_data_ok(r.rtype, r.record)
}

/// The length that is written for the data of a record at `pos`.
pub open spec fn spec_written_len(r: RecordView, map: Map<Seq<char>, usize>, pos: int) -> u16 {
    let (name, mid) = spec_encode_name(encode_utf8(r.name), map, pos)->Ok_0;
    let rdata = spec_serialize_record_data(r.record, mid, pos + name.len() + RECORD_FIXED_LEN).0;
    rdata->Ok_0.len() as u16
}

/// The record with the length of its data as it is written at `pos`.
pub open spec fn spec_back_patched(r: RecordView, map: Map<Seq<char>, usize>, pos: int)
    -> RecordView {
    RecordView { len: spec_written_len(r, map, pos), ..r }
}

/// A record that is written behind `buf` reads back as itself with the
/// length of its data as it was written, whatever is written behind it, and
/// the map stays true of what is written.
pub proof fn lemma_record_reads_back(
    buf: Seq<u8>,
    r: RecordView,
    map: Map<Seq<char>, usize>,
    ext: Seq<u8>,
)
    requires
        spec_map_sound(buf, map),
        spec_record_ok(r),
    ensures
        spec_encode_record(r, map, buf.len() as int).0 is Ok,
        ({
            let (out, last) = spec_encode_record(r, map, buf.len() as int);
            &&& spec_map_sound(buf + out->Ok_0, last)
            &&& spec_parse_record(buf + out->Ok_0 + ext, buf.len() as int) == Ok::<
                (RecordView, int),
                DNSError,
            >((spec_back_patched(r, map, buf.len() as int), out->Ok_0.len() as int))
        }),
{
    reveal(spec_encode_record);
    reveal(spec_parse_record);
    let pos = buf.len() as int;
    lemma_name_len(r.name, map, pos);
    let (name, mid) = spec_encode_name(encode_utf8(r.name), map, pos)->Ok_0;
    let at = pos + name.len();
    assert(spec_map_sound(buf + name, mid)) by {
        lemma_name_reads_back(buf, r.name, map, Seq::empty());
    }
    let fixed_len = RECORD_FIXED_LEN as int;
    let (rdata, last) = spec_serialize_record_data(r.record, mid, at + fixed_len);
    assert(rdata is Ok) by {
        lemma_serialize_record_data_anywhere(r.rtype, r.record, mid, at + fixed_len);
    }
    let rdata = rdata->Ok_0;
    let fixed = spec_u16_bytes(r.rtype) + spec_u16_bytes(r.class) + spec_u32_bytes(r.ttl)
        + spec_u16_bytes(rdata.len() as u16);
    assert(fixed.len() == fixed_len);
    let head = buf + name + fixed;
    assert(spec_map_sound(head, mid)) by {
        lemma_sound_extends(buf + name, mid, head);
    }
    lemma_record_data_reads_back(head, r.rtype, r.record, mid, ext);
    let out = name + spec_u16_bytes(r.rtype) + spec_u16_bytes(r.class) + spec_u32_bytes(r.ttl)
        + spec_u16_bytes(rdata.len() as u16) + rdata;
    let data = buf + out + ext;
    assert(head + rdata =~= buf + out);
    assert(head + rdata + ext =~= data);
    assert(spec_parse_name(data, pos) == Ok::<(Seq<char>, int), DNSError>(
        (r.name, name.len() as int),
    )) by {
        lemma_name_reads_back(buf, r.name, map, fixed + rdata + ext);
        assert(buf + name + (fixed + rdata + ext) =~= data);
    }
    assert(spec_u16_at(data, at) == r.rtype && spec_u16_at(data, at + 2) == r.class
        && spec_u32_at(data, at + 4) == r.ttl && spec_u16_at(data, at + 8) == rdata.len()) by {
        assert(data.subrange(at, at + 2) =~= spec_u16_bytes(r.rtype));
        assert(data.subrange(at + 2, at + 4) =~= spec_u16_bytes(r.class));
        assert(data.subrange(at + 4, at + 8) =~= spec_u32_bytes(r.ttl));
        assert(data.subrange(at + 8, at + 10) =~= spec_u16_bytes(rdata.len() as u16));
        lemma_u16_bytes_read(r.rtype, data, at);
        lemma_u16_bytes_read(r.class, data, at + 2);
        lemma_u32_bytes_read(r.ttl, data, at + 4);
        lemma_u16_bytes_read(rdata.len() as u16, data, at + 8);
    }
}

/// Record data that can be written at one offset can be written at any.
pub proof fn lemma_serialize_record_data_anywhere(
    rtype: u16,
    record: RecordDataView,
    map: Map<Seq<char>, usize>,
    pos: int,
)
    requires
        spec_record_data_ok(rtype, record),
    ensures
        spec_serialize_record_data(record, map, pos).0 is Ok,
{
    reveal(spec_serialize_record_data);
    match record {
        RecordDataView::NS(name) => {
            lemma_name_len(name, map, pos);
        },
        RecordDataView::CNAME(name) => {
            lemma_name_len(name, map, pos);
        },
        RecordDataView::MX(v) => {
            lemma_name_len(v.exchange, map, pos + 2);
        },
        RecordDataView::SOA(v) => {
            lemma_name_len(v.mname, map, pos);
            let (first, mid) = spec_encode_name(encode_utf8(v.mname), map, pos)->Ok_0;
            lemma_name_len(v.rname, mid, pos + first.len());
        },
        RecordDataView::TXT(segments) => {
            lemma_segments_read_back(Seq::empty(), segments, Seq::empty());
        },
        _ => {},
    }
}

/// Records that can be written and read.
pub open spec fn spec_records_ok(rs: Seq<RecordView>) -> bool {
    forall|i: int| 0 <= i < rs.len() ==> spec_record_ok(#[trigger] rs[i])
}

/// The records with the lengths of their data as they are written from
/// `pos` on.
pub open spec fn spec_all_back_patched(
    rs: Seq<RecordView>,
    map: Map<Seq<char>, usize>,
    pos: int,
) -> Seq<RecordView>
    decreases rs.len(),
{
    if rs.len() == 0 {
        Seq::empty()
    } else {
        let (first, after) = spec_encode_record(rs[0], map, pos);
        seq![spec_back_patched(rs[0], map, pos)] + spec_all_back_patched(
            rs.drop_first(),
            after,
            pos + first->Ok_0.len(),
        )
    }
}

/// Records that are written behind `buf` read back as themselves with the
/// lengths of their data as they were written, whatever is written behind
/// them, and the map stays true of what is written.
pub proof fn lemma_records_read_back(
    buf: Seq<u8>,
    rs: Seq<RecordView>,
    map: Map<Seq<char>, usize>,
    ext: Seq<u8>,
)
    requires
        spec_map_sound(buf, map),
        spec_records_ok(rs),
    ensures
        spec_encode_records(rs, map, buf.len() as int).0 is Ok,
        ({
            let (out, last) = spec_encode_records(rs, map, buf.len() as int);
            &&& spec_map_sound(buf + out->Ok_0, last)
            &&& spec_parse_records(buf + out->Ok_0 + ext, buf.len() as int, rs.len()) == Ok::<
                (Seq<RecordView>, int),
                DNSError,
            >((spec_all_back_patched(rs, map, buf.len() as int), out->Ok_0.len() as int))
        }),
    decreases rs.len(),
{
    let pos = buf.len() as int;
    if rs.len() == 0 {
        assert(buf + Seq::<u8>::empty() =~= buf);
    } else {
        let (first, after) = spec_encode_record(rs[0], map, pos);
        lemma_record_reads_back(buf, rs[0], map, Seq::empty());
        let first = first->Ok_0;
        let (rest, last) = spec_encode_records(rs.drop_first(), after, pos + first.len());
        assert(buf + first + Seq::<u8>::empty() =~= buf + first);
        lemma_records_read_back(buf + first, rs.drop_first(), after, ext);
        let rest = rest->Ok_0;
        lemma_record_reads_back(buf, rs[0], map, rest + ext);
        assert(buf + first + (rest + ext) =~= buf + (first + rest) + ext);
        assert(buf + first + rest + ext =~= buf + (first + rest) + ext);
        assert(buf + first + rest =~= buf + (first + rest));
    }
}

/// A message that can be written and read: the fields of its header fit
/// their bits, no section has more entries than a count can hold, and every
/// question and record can be written and read.
pub open spec fn spec_packet_ok(p: PacketView) -> bool {
    &&& spec_header_wf(p.header)
    &&& p.questions.len() <= MAX_SECTION_LEN
    &&& p.answers.len() <= MAX_SECTION_LEN
    &&& p.authority.len() <= MAX_SECTION_LEN
    &&& p.additional.len() <= MAX_SECTION_LEN
    &&& spec_questions_ok(p.questions)
    &&& spec_records_ok(p.answers)
    &&& spec_records_ok(p.authority)
    &&& spec_records_ok(p.additional)
}

/// The message as its bytes hold it: the counts of the header are the
/// lengths of the sections, and the length of each record is that of its
/// data as it is written.
pub open spec fn spec_canonical(p: PacketView) -> PacketView {
    let (q, m1) = spec_encode_questions(p.questions, Map::empty(), HEADER_LEN as int);
    let at1 = HEADER_LEN + q->Ok_0.len();
    let (a, m2) = spec_encode_records(p.answers, m1, at1);
    let at2 = at1 + a->Ok_0.len();
    let (n, m3) = spec_encode_records(p.authority, m2, at2);
    let at3 = at2 + n->Ok_0.len();
    PacketView {
        header: spec_counted_header(p),
        questions: p.questions,
        answers: spec_all_back_patched(p.answers, m1, at1),
        authority: spec_all_back_patched(p.authority, m2, at2),
        additional: spec_all_back_patched(p.additional, m3, at3),
    }
}

/// The suffixes that are recorded when a message is written, with their
/// offsets.
pub open spec fn spec_packet_map(p: PacketView) -> Map<Seq<char>, usize> {
    let (q, m1) = spec_encode_questions(p.questions, Map::empty(), HEADER_LEN as int);
    let at1 = HEADER_LEN + q->Ok_0.len();
    let (a, m2) = spec_encode_records(p.answers, m1, at1);
    let at2 = at1 + a->Ok_0.len();
    let (n, m3) = spec_encode_records(p.authority, m2, at2);
    let at3 = at2 + n->Ok_0.len();
    spec_encode_records(p.additional, m3, at3).1
}

/// A message that is written reads back as what its bytes hold, whatever
/// follows the bytes; and every suffix that was recorded on the way reads
/// back at its offset in the bytes.
pub proof fn lemma_packet_reads_back(p: PacketView, ext: Seq<u8>)
    requires
        spec_packet_ok(p),
    ensures
        spec_serialize_packet(p) is Ok,
        spec_parse_packet(spec_serialize_packet(p)->Ok_0 + ext) == Ok::<PacketView, DNSError>(
            spec_canonical(p),
        ),
        spec_map_sound(spec_serialize_packet(p)->Ok_0, spec_packet_map(p)),
{
    let header = spec_counted_header(p);
    let h = spec_header_bytes(header);
    let none = Seq::<u8>::empty();
    let start = Map::<Seq<char>, usize>::empty();
    assert(h.len() == HEADER_LEN);
    assert(spec_map_sound(h, start));

    lemma_questions_read_back(h, p.questions, start, none);
    let (q, m1) = spec_encode_questions(p.questions, start, HEADER_LEN as int);
    let q = q->Ok_0;
    assert(h + q + none =~= h + q);

    lemma_records_read_back(h + q, p.answers, m1, none);
    let (a, m2) = spec_encode_records(p.answers, m1, HEADER_LEN + q.len());
    let a = a->Ok_0;
    assert(h + q + a + none =~= h + q + a);

    lemma_records_read_back(h + q + a, p.authority, m2, none);
    let (n, m3) = spec_encode_records(p.authority, m2, HEADER_LEN + q.len() + a.len());
    let n = n->Ok_0;
    assert(h + q + a + n + none =~= h + q + a + n);

    lemma_records_read_back(h + q + a + n, p.additional, m3, ext);
    let (r, _) = spec_encode_records(
        p.additional,
        m3,
        HEADER_LEN + q.len() + a.len() + n.len(),
    );
    let r = r->Ok_0;

    let data = h + q + a + n + r + ext;
    assert(spec_serialize_packet(p) == Ok::<Seq<u8>, DNSError>(h + q + a + n + r));
    lemma_records_read_back(h + q + a, p.authority, m2, r + ext);
    assert(h + q + a + n + (r + ext) =~= data);
    lemma_records_read_back(h + q, p.answers, m1, n + r + ext);
    assert(h + q + a + (n + r + ext) =~= data);
    lemma_questions_read_back(h, p.questions, start, a + n + r + ext);
    assert(h + q + (a + n + r + ext) =~= data);
    lemma_header_roundtrip(header, q + a + n + r + ext);
    assert(h + (q + a + n + r + ext) =~= data);
}

/// A message whose counts are the lengths of its sections, and whose
/// records hold the lengths of their data as written, reads back from its
/// bytes as itself.
pub proof fn lemma_roundtrip(p: PacketView)
    requires
        spec_packet_ok(p),
        spec_canonical(p) == p,
    ensures
        spec_serialize_packet(p) is Ok,
        spec_parse_packet(spec_serialize_packet(p)->Ok_0) == Ok::<PacketView, DNSError>(p),
{
    lemma_roundtrip_bytes(p);
}

/// How a record is written does not depend on the length that it holds.
pub proof fn lemma_encode_record_ignores_len(
    r: RecordView,
    len: u16,
    map: Map<Seq<char>, usize>,
    pos: int,
)
    ensures
        spec_encode_record(RecordView { len, ..r }, map, pos) == spec_encode_record(r, map, pos),
        spec_back_patched(RecordView { len, ..r }, map, pos) == spec_back_patched(r, map, pos),
{
    reveal(spec_encode_record);
}

/// Records with the lengths of their data as written are the records they
/// were in all but the lengths; they are written as before, and their
/// lengths stay as they are when they are written again.
pub proof fn lemma_back_patched_settled(
    rs: Seq<RecordView>,
    map: Map<Seq<char>, usize>,
    pos: int,
)
    requires
        spec_records_ok(rs),
    ensures
        ({
            let patched = spec_all_back_patched(rs, map, pos);
            &&& patched.len() == rs.len()
            &&& spec_records_ok(patched)
            &&& spec_encode_records(patched, map, pos) == spec_encode_records(rs, map, pos)
            &&& spec_all_back_patched(patched, map, pos) == patched
        }),
    decreases rs.len(),
{
    let patched = spec_all_back_patched(rs, map, pos);
    if rs.len() == 0 {
        assert(spec_all_back_patched(patched, map, pos) =~= patched);
    } else {
        let (first, after) = spec_encode_record(rs[0], map, pos);
        let next = pos + first->Ok_0.len();
        let rest = spec_all_back_patched(rs.drop_first(), after, next);
        lemma_back_patched_settled(rs.drop_first(), after, next);
        lemma_encode_record_ignores_len(rs[0], spec_written_len(rs[0], map, pos), map, pos);
        assert(patched[0] == spec_back_patched(rs[0], map, pos));
        assert(patched.drop_first() =~= rest);
        assert forall|i: int| 0 <= i < patched.len() implies spec_record_ok(
            #[trigger] patched[i],
        ) by {
            if i > 0 {
                assert(patched[i] == rest[i - 1]);
            }
        }
        assert(spec_all_back_patched(patched, map, pos) =~= patched);
    }
}

/// What is read from the bytes of a message is written as these same bytes,
/// and so reads back as itself however often it is written and read.
pub proof fn lemma_byte_stable(p: PacketView)
    requires
        spec_packet_ok(p),
    ensures
        spec_serialize_packet(p) is Ok,
        spec_parse_packet(spec_serialize_packet(p)->Ok_0) == Ok::<PacketView, DNSError>(
            spec_canonical(p),
        ),
        spec_packet_ok(spec_canonical(p)),
        spec_canonical(spec_canonical(p)) == spec_canonical(p),
        spec_serialize_packet(spec_canonical(p)) == spec_serialize_packet(p),
        spec_parse_packet(spec_serialize_packet(spec_canonical(p))->Ok_0) == Ok::<
            PacketView,
            DNSError,
        >(spec_canonical(p)),
{
    lemma_roundtrip_bytes(p);
    let c = spec_canonical(p);
    let (q, m1) = spec_encode_questions(p.questions, Map::empty(), HEADER_LEN as int);
    let at1 = HEADER_LEN + q->Ok_0.len();
    let (a, m2) = spec_encode_records(p.answers, m1, at1);
    let at2 = at1 + a->Ok_0.len();
    let (n, m3) = spec_encode_records(p.authority, m2, at2);
    let at3 = at2 + n->Ok_0.len();
    lemma_back_patched_settled(p.answers, m1, at1);
    lemma_back_patched_settled(p.authority, m2, at2);
    lemma_back_patched_settled(p.additional, m3, at3);
    assert(spec_counted_header(c) == spec_counted_header(p));
}

/// A message that is written reads back as what its bytes hold.
pub proof fn lemma_roundtrip_bytes(p: PacketView)
    requires
        spec_packet_ok(p),
    ensures
        spec_serialize_packet(p) is Ok,
        spec_parse_packet(spec_serialize_packet(p)->Ok_0) == Ok::<PacketView, DNSError>(
            spec_canonical(p),
        ),
{
    lemma_packet_reads_back(p, Seq::empty());
    assert(spec_serialize_packet(p)->Ok_0 + Seq::<u8>::empty() =~= spec_serialize_packet(
        p,
    )->Ok_0);
}

/// Byte strings that were read are written as the bytes they were read
/// from.
pub proof fn lemma_segments_written_back(data: Seq<u8>, pos: int, end: int)
    requires
        0 <= pos <= end <= data.len(),
        spec_parse_segments(data, pos, end) is Ok,
    ensures
        spec_segments_ok(spec_parse_segments(data, pos, end)->Ok_0),
        spec_encode_segments(spec_parse_segments(data, pos, end)->Ok_0) == Ok::<
            Seq<u8>,
            DNSError,
        >(data.subrange(pos, end)),
    decreases end - pos,
{
    let segments = spec_parse_segments(data, pos, end)->Ok_0;
    if pos >= end {
        assert(data.subrange(pos, end) =~= Seq::<u8>::empty());
    } else {
        let next = pos + 1 + data[pos];
        lemma_segments_written_back(data, next, end);
        let first = data.subrange(pos + 1, next);
        let rest = spec_parse_segments(data, next, end)->Ok_0;
        assert(segments == seq![first] + rest);
        assert(segments.drop_first() =~= rest);
        assert(segments[0] == first);
        assert forall|i: int| 0 <= i < segments.len() implies (#[trigger] segments[i]).len()
            <= MAX_SEGMENT_LEN by {
            if i > 0 {
                assert(segments[i] == rest[i - 1]);
            }
        }
        assert(seq![first.len() as u8] + first + data.subrange(next, end) =~= data.subrange(
            pos,
            end,
        ));
    }
}

/// The names in the data of a record can be written and read.
pub open spec fn spec_data_names_ok(record: RecordDataView) -> bool {
    match record {
        RecordDataView::NS(name) => spec_name_ok(name),
        RecordDataView::CNAME(name) => spec_name_ok(name),
        RecordDataView::SOA(v) => spec_name_ok(v.mname) && spec_name_ok(v.rname),
        RecordDataView::MX(v) => spec_name_ok(v.exchange),
        _ => true,
    }
}

/// The names of a record can be written and read.
pub open spec fn spec_record_names_ok(r: RecordView) -> bool {
    spec_name_ok(r.name) && spec_data_names_ok(r.record)
}

/// The names of a message can be written and read.
pub open spec fn spec_names_ok(p: PacketView) -> bool {
    &&& spec_questions_ok(p.questions)
    &&& forall|i: int| 0 <= i < p.answers.len() ==> spec_record_names_ok(#[trigger] p.answers[i])
    &&& forall|i: int|
        0 <= i < p.authority.len() ==> spec_record_names_ok(#[trigger] p.authority[i])
    &&& forall|i: int|
        0 <= i < p.additional.len() ==> spec_record_names_ok(#[trigger] p.additional[i])
}

/// Record data that was read can be written and read, if its names can.
pub proof fn lemma_parsed_data_ok(data: Seq<u8>, rtype: u16, start: int, len: int)
    requires
        0 <= start,
        0 <= len <= MAX_RDATA_LEN,
        spec_parse_record_data(data, rtype, start, len) is Ok,
        spec_data_names_ok(spec_parse_record_data(data, rtype, start, len)->Ok_0),
    ensures
        spec_record_data_ok(rtype, spec_parse_record_data(data, rtype, start, len)->Ok_0),
{
    reveal(spec_parse_record_data);
    match spec_parse_record_data(data, rtype, start, len)->Ok_0 {
        RecordDataView::TXT(_) => {
            lemma_segments_written_back(data, start, start + len);
        },
        _ => {},
    }
}

/// Records that were read can be written and read, if their names can.
pub proof fn lemma_parsed_records_ok(data: Seq<u8>, pos: int, count: nat)
    requires
        spec_parse_records(data, pos, count) is Ok,
        forall|i: int|
            0 <= i < spec_parse_records(data, pos, count)->Ok_0.0.len() ==> spec_record_names_ok(
                #[trigger] spec_parse_records(data, pos, count)->Ok_0.0[i],
            ),
    ensures
        spec_records_ok(spec_parse_records(data, pos, count)->Ok_0.0),
    decreases count,
{
    let rs = spec_parse_records(data, pos, count)->Ok_0.0;
    if count > 0 {
        reveal(spec_parse_record);
        reveal(spec_parse_name);
        let (first, taken) = spec_parse_record(data, pos)->Ok_0;
        let rest = spec_parse_records(data, pos + taken, (count - 1) as nat)->Ok_0.0;
        assert(rs == seq![first] + rest);
        assert(rs[0] == first);
        assert forall|i: int| 0 <= i < rest.len() implies spec_record_names_ok(
            #[trigger] rest[i],
        ) by {
            assert(rest[i] == rs[i + 1]);
        }
        lemma_parsed_records_ok(data, pos + taken, (count - 1) as nat);
        let name = spec_parse_name(data, pos)->Ok_0.1;
        lemma_name_within(data, pos);
        lemma_parsed_data_ok(
            data,
            first.rtype,
            pos + name + RECORD_FIXED_LEN,
            first.len as int,
        );
        assert forall|i: int| 0 <= i < rs.len() implies spec_record_ok(#[trigger] rs[i]) by {
            if i > 0 {
                assert(rs[i] == rest[i - 1]);
            }
        }
    }
}

/// A message that was read can be written and read, if its names can.
pub proof fn lemma_parsed_packet_ok(data: Seq<u8>)
    requires
        spec_parse_packet(data) is Ok,
        spec_names_ok(spec_parse_packet(data)->Ok_0),
    ensures
        spec_packet_ok(spec_parse_packet(data)->Ok_0),
{
    let (header, at) = spec_parse_header(data)->Ok_0;
    let (_, q) = spec_parse_questions(data, at as int, header.qdcount as nat)->Ok_0;
    let (_, a) = spec_parse_records(data, at + q, header.ancount as nat)->Ok_0;
    let (_, n) = spec_parse_records(data, at + q + a, header.nscount as nat)->Ok_0;
    lemma_parsed_counts(data);
    lemma_parsed_header_fits(data);
    lemma_parsed_records_ok(data, at + q, header.ancount as nat);
    lemma_parsed_records_ok(data, at + q + a, header.nscount as nat);
    lemma_parsed_records_ok(data, at + q + a + n, header.arcount as nat);
}

/// Where bytes hold a message whose names can be written, and whose records
/// have the lengths of their data as they are written, to write the message
/// and read it again gives what the bytes held.
pub proof fn lemma_reparse_stable(data: Seq<u8>)
    requires
        spec_parse_packet(data) is Ok,
        spec_names_ok(spec_parse_packet(data)->Ok_0),
        spec_canonical(spec_parse_packet(data)->Ok_0) == spec_parse_packet(data)->Ok_0,
    ensures
        spec_serialize_packet(spec_parse_packet(data)->Ok_0) is Ok,
        spec_parse_packet(spec_serialize_packet(spec_parse_packet(data)->Ok_0)->Ok_0)
            == spec_parse_packet(data),
{
    lemma_parsed_packet_ok(data);
    lemma_roundtrip(spec_parse_packet(data)->Ok_0);
}

/// A suffix that the map knows is written as a pointer, and the pointer
/// leads to an earlier offset, at which the suffix reads back.
pub proof fn lemma_pointer_leads_back(
    buf: Seq<u8>,
    bytes: Seq<u8>,
    i: int,
    map: Map<Seq<char>, usize>,
)
    requires
        spec_map_sound(buf, map),
        0 <= i < bytes.len(),
        map.contains_key(suffix_key(bytes, i)),
    ensures
        ({
            let target = map[suffix_key(bytes, i)] as int;
            &&& spec_encode_labels(bytes, i, map, buf.len() as int) == (
                spec_pointer(target),
                map,
            )
            &&& target < buf.len()
            &&& spec_entry_sound(buf, suffix_key(bytes, i), target)
        }),
{
}

} // verus!
