//! Errors, and the codec for compressed domain names.

use vstd::hash_map::StringHashMap;
use vstd::prelude::*;
use vstd::set_lib::*;
use vstd::slice::slice_subrange;
use vstd::string::*;
use vstd::utf8::*;

verus! {

/// Why a message could not be decoded, encoded or resolved.
#[derive(Debug, Clone, Copy, PartialEq, Eq, Structural)]
pub enum DNSError {
    /// The buffer ends before the structure does.
    ShortBuffer,
    /// A label with a reserved prefix, a pointer out of the packet, a pointer
    /// cycle, a name longer than 255 bytes, or a name that is not a sequence
    /// of non-empty labels each closed by a dot.
    MalformedName,
    /// A label of more than 63 bytes.
    LabelTooLong,
    /// Record data whose length does not fit its type.
    InvalidRdataLength,
    /// The socket to the upstream server failed.
    UpstreamIo,
    /// The upstream server did not answer in time.
    UpstreamTimeout,
    /// The bound on referrals or on nested resolutions was reached.
    ResolutionExhausted,
}

/// A decoded value together with the number of bytes it took on the wire.
pub type ParseResult<T> = Result<(T, usize), DNSError>;

/// A value that is read from the front of a buffer.
pub trait Parse: Sized {
    /// The value at the front of `data` and the bytes it takes, or why there
    /// is none.
    spec fn spec_parse(data: Seq<u8>) -> Result<(Self, usize), DNSError>;

    /// Reads the value at the front of `data`.
    fn parse(data: &[u8]) -> (r: ParseResult<Self>)
        ensures
            r == Self::spec_parse(data@),
    ;
}

/// The byte of the dot that closes every label of a written name.
pub const DOT: u8 = 0x2E;

/// The longest label, in bytes.
pub const MAX_LABEL_LEN: usize = 63;

/// The longest decoded name, in bytes.
pub const MAX_NAME_LEN: usize = 255;

/// The first byte of a compression pointer to offset 0.
pub const POINTER_TAG: u8 = 0xC0;

/// The offsets that a compression pointer can name lie below this.
pub const POINTER_LIMIT: usize = 0x4000;

/// The offsets below `len` that a walk has not yet been at.
pub open spec fn unvisited(len: nat, visited: Set<int>) -> Set<int> {
    Set::new(|p: int| 0 <= p < len && !visited.contains(p))
}

/// Being at one more offset leaves fewer offsets to be at.
pub proof fn lemma_unvisited_shrinks(len: nat, visited: Set<int>, p: int)
    requires
        0 <= p < len,
        !visited.contains(p),
    ensures
        unvisited(len, visited).finite(),
        unvisited(len, visited).len() <= len,
        unvisited(len, visited.insert(p)).len() < unvisited(len, visited).len(),
{
    let u = unvisited(len, visited);
    let all = set_int_range(0, len as int);
    lemma_int_range(0, len as int);
    assert(u.subset_of(all));
    lemma_len_subset(u, all);
    assert(u.contains(p));
    assert(unvisited(len, visited.insert(p)) =~= u.remove(p));
}

/// What `String::from_utf8_lossy` makes of bytes that are not UTF-8.
pub uninterp spec fn lossy_text(bytes: Seq<u8>) -> Seq<char>;

/// The text that the bytes of a label stand for: their characters where
/// they are UTF-8, and the lossy reading of them where they are not.
pub open spec fn label_text(bytes: Seq<u8>) -> Seq<char> {
    if valid_utf8(bytes) {
        decode_utf8(bytes)
    } else {
        lossy_text(bytes)
    }
}

/// The text of the labels read from `pos` on, each followed by a dot, and
/// the number of bytes that the name takes at `pos` itself: every label read
/// there counts once and a pointer counts as two bytes, whatever lies behind
/// it.
///
/// `visited` holds the offsets the walk has been at, and `used` the bytes of
/// the labels read so far, a dot counted with each. A byte below 64 opens a
/// label of that length, a byte of 192 or more opens a pointer whose offset
/// is the low six bits and the next byte, and 0 ends the name.
pub open spec fn spec_walk_name(data: Seq<u8>, pos: int, visited: Set<int>, used: int) -> Result<
    (Seq<char>, int),
    DNSError,
>
    decreases unvisited(data.len(), visited).len(),
    via spec_walk_name_decreases
{
    if pos < 0 || pos >= data.len() {
        Err(DNSError::ShortBuffer)
    } else if visited.contains(pos) {
        Err(DNSError::MalformedName)
    } else if data[pos] == 0 {
        Ok((Seq::empty(), 1))
    } else if data[pos] < 64 {
        let n = data[pos] as int;
        if pos + 1 + n > data.len() {
            Err(DNSError::ShortBuffer)
        } else if used + n + 1 > MAX_NAME_LEN {
            Err(DNSError::MalformedName)
        } else {
            match spec_walk_name(data, pos + 1 + n, visited.insert(pos), used + n + 1) {
                Ok((rest, taken)) => Ok(
                    (
                        label_text(data.subrange(pos + 1, pos + 1 + n)).push('.') + rest,
                        1 + n + taken,
                    ),
                ),
                Err(e) => Err(e),
            }
        }
    } else if data[pos] >= POINTER_TAG {
        if pos + 1 >= data.len() {
            Err(DNSError::ShortBuffer)
        } else {
            let target = (data[pos] - POINTER_TAG) * 256 + data[pos + 1];
            if target >= data.len() {
                Err(DNSError::MalformedName)
            } else {
                match spec_walk_name(data, target, visited.insert(pos), used) {
                    Ok((rest, _)) => Ok((rest, 2)),
                    Err(e) => Err(e),
                }
            }
        }
    } else {
        Err(DNSError::MalformedName)
    }
}

#[via_fn]
proof fn spec_walk_name_decreases(data: Seq<u8>, pos: int, visited: Set<int>, used: int) {
    if 0 <= pos < data.len() && !visited.contains(pos) {
        lemma_unvisited_shrinks(data.len(), visited, pos);
    }
}

/// The number of steps of the walk from `pos`: the labels and pointers that
/// it goes past before it ends or fails.
pub open spec fn spec_walk_steps(data: Seq<u8>, pos: int, visited: Set<int>, used: int) -> nat
    decreases unvisited(data.len(), visited).len(),
    via spec_walk_steps_decreases
{
    if pos < 0 || pos >= data.len() || visited.contains(pos) || data[pos] == 0 {
        0
    } else if data[pos] < 64 {
        let n = data[pos] as int;
        if pos + 1 + n > data.len() || used + n + 1 > MAX_NAME_LEN {
            0
        } else {
            1 + spec_walk_steps(data, pos + 1 + n, visited.insert(pos), used + n + 1)
        }
    } else if data[pos] >= POINTER_TAG {
        let target = (data[pos] - POINTER_TAG) * 256 + data[pos + 1];
        if pos + 1 >= data.len() || target >= data.len() {
            0
        } else {
            1 + spec_walk_steps(data, target, visited.insert(pos), used)
        }
    } else {
        0
    }
}

#[via_fn]
proof fn spec_walk_steps_decreases(data: Seq<u8>, pos: int, visited: Set<int>, used: int) {
    if 0 <= pos < data.len() && !visited.contains(pos) {
        lemma_unvisited_shrinks(data.len(), visited, pos);
    }
}

/// A walk is at no offset twice: with every step one offset fewer is left,
/// so that a walk through a packet takes at most as many steps as the packet
/// has bytes, whatever its pointers are.
pub proof fn lemma_walk_steps_bounded(data: Seq<u8>, pos: int, visited: Set<int>, used: int)
    ensures
        spec_walk_steps(data, pos, visited, used) <= unvisited(data.len(), visited).len(),
        spec_walk_steps(data, pos, visited, used) <= data.len(),
    decreases unvisited(data.len(), visited).len(),
{
    if 0 <= pos < data.len() && !visited.contains(pos) {
        lemma_unvisited_shrinks(data.len(), visited, pos);
        if data[pos] == 0 {
        } else if data[pos] < 64 {
            let n = data[pos] as int;
            if !(pos + 1 + n > data.len() || used + n + 1 > MAX_NAME_LEN) {
                lemma_walk_steps_bounded(data, pos + 1 + n, visited.insert(pos), used + n + 1);
            }
        } else if data[pos] >= POINTER_TAG {
            let target = (data[pos] - POINTER_TAG) * 256 + data[pos + 1];
            if !(pos + 1 >= data.len() || target >= data.len()) {
                lemma_walk_steps_bounded(data, target, visited.insert(pos), used);
            }
        }
    } else {
        let all = set_int_range(0, data.len() as int);
        lemma_int_range(0, data.len() as int);
        assert(unvisited(data.len(), visited).subset_of(all));
        lemma_len_subset(unvisited(data.len(), visited), all);
    }
}

/// The dotted text of the name at `pos` and the bytes it takes there. The
/// name without labels reads as a single dot.
#[verifier::opaque]
pub open spec fn spec_parse_name(data: Seq<u8>, pos: int) -> Result<(Seq<char>, int), DNSError> {
    match spec_walk_name(data, pos, Set::empty(), 0) {
        Ok((text, taken)) => Ok((if text.len() == 0 { seq!['.'] } else { text }, taken)),
        Err(e) => Err(e),
    }
}

/// A name that is read ends with a dot.
pub proof fn lemma_walk_ends_with_dot(data: Seq<u8>, pos: int, visited: Set<int>, used: int)
    requires
        spec_walk_name(data, pos, visited, used) is Ok,
    ensures
        ({
            let text = spec_walk_name(data, pos, visited, used)->Ok_0.0;
            text.len() > 0 ==> text.last() == '.'
        }),
    decreases unvisited(data.len(), visited).len(),
{
    lemma_unvisited_shrinks(data.len(), visited, pos);
    if data[pos] == 0 {
    } else if data[pos] < 64 {
        let n = data[pos] as int;
        lemma_walk_ends_with_dot(data, pos + 1 + n, visited.insert(pos), used + n + 1);
    } else {
        let target = (data[pos] - POINTER_TAG) * 256 + data[pos + 1];
        lemma_walk_ends_with_dot(data, target, visited.insert(pos), used);
    }
}

/// A name that is read ends with a dot, and the name that begins with the
/// zero byte is the single dot.
pub proof fn lemma_name_ends_with_dot(data: Seq<u8>, pos: int)
    requires
        spec_parse_name(data, pos) is Ok,
    ensures
        spec_parse_name(data, pos)->Ok_0.0.len() > 0,
        spec_parse_name(data, pos)->Ok_0.0.last() == '.',
        data[pos] == 0 ==> spec_parse_name(data, pos)->Ok_0.0 == seq!['.'],
{
    reveal(spec_parse_name);
    lemma_walk_ends_with_dot(data, pos, Set::empty(), 0);
}

/// The bytes that a name takes where it stands lie within the packet.
pub proof fn lemma_walk_within(data: Seq<u8>, pos: int, visited: Set<int>, used: int)
    requires
        spec_walk_name(data, pos, visited, used) is Ok,
    ensures
        0 <= pos,
        0 < spec_walk_name(data, pos, visited, used)->Ok_0.1,
        pos + spec_walk_name(data, pos, visited, used)->Ok_0.1 <= data.len(),
    decreases unvisited(data.len(), visited).len(),
{
    lemma_unvisited_shrinks(data.len(), visited, pos);
    if data[pos] != 0 && data[pos] < 64 {
        let n = data[pos] as int;
        lemma_walk_within(data, pos + 1 + n, visited.insert(pos), used + n + 1);
    }
}

/// The bytes that a name takes where it stands lie within the packet.
pub proof fn lemma_name_within(data: Seq<u8>, pos: int)
    requires
        spec_parse_name(data, pos) is Ok,
    ensures
        0 <= pos,
        0 < spec_parse_name(data, pos)->Ok_0.1,
        pos + spec_parse_name(data, pos)->Ok_0.1 <= data.len(),
{
    reveal(spec_parse_name);
    lemma_walk_within(data, pos, Set::empty(), 0);
}

/// Calls `String::from_utf8_lossy`. Bytes that are UTF-8 come back as the
/// characters they encode; of other bytes only the name of the result is
/// claimed.
#[verifier::external_body]
fn text_from_bytes(bytes: &[u8]) -> (text: String)
    ensures
        valid_utf8(bytes@) ==> text@ == decode_utf8(bytes@),
        !valid_utf8(bytes@) ==> text@ == lossy_text(bytes@),
{
    String::from_utf8_lossy(bytes).into_owned()
}

/// The offsets held in `path`.
pub open spec fn offsets_of(path: Seq<usize>) -> Set<int> {
    Set::new(|p: int| exists|j: int| 0 <= j < path.len() && path[j] as int == p)
}

fn path_contains(path: &Vec<usize>, pos: usize) -> (found: bool)
    ensures
        found == offsets_of(path@).contains(pos as int),
{
    let mut i: usize = 0;
    while i < path.len()
        invariant
            i <= path.len(),
            forall|j: int| 0 <= j < i ==> path@[j] != pos,
        decreases path.len() - i,
    {
        if path[i] == pos {
            return true;
        }
        i += 1;
    }
    false
}

/// Copies `data[from..to]` to the end of `out`.
pub fn push_range(out: &mut Vec<u8>, data: &[u8], from: usize, to: usize)
    requires
        from <= to <= data@.len(),
    ensures
        final(out)@ == old(out)@ + data@.subrange(from as int, to as int),
{
    let mut i: usize = from;
    while i < to
        invariant
            from <= i <= to <= data@.len(),
            out@ == old(out)@ + data@.subrange(from as int, i as int),
        decreases to - i,
    {
        out.push(data[i]);
        i += 1;
        assert(data@.subrange(from as int, i as int) == data@.subrange(from as int, i - 1).push(
            data@[i - 1],
        ));
    }
}

/// Where each suffix written so far begins in the packet under construction.
/// The offsets it holds fit in the fourteen bits of a compression pointer.
pub struct LabelPtrMap {
    offsets: StringHashMap<usize>,
}

/// The suffixes of the map with their offsets. An offset that no pointer can
/// name is never stored, and were one stored, it would not count.
impl View for LabelPtrMap {
    type V = Map<Seq<char>, usize>;

    closed spec fn view(&self) -> Map<Seq<char>, usize> {
        Map::new(
            |k: Seq<char>| self.offsets@.contains_key(k) && self.offsets@[k] < POINTER_LIMIT,
            |k: Seq<char>| self.offsets@[k],
        )
    }
}

/// Every offset of `map` fits in a compression pointer.
pub open spec fn offsets_fit(map: Map<Seq<char>, usize>) -> bool {
    forall|k: Seq<char>| map.contains_key(k) ==> #[trigger] map[k] < POINTER_LIMIT
}

impl LabelPtrMap {
    /// The map of a packet of which nothing is written yet.
    pub fn new() -> (map: Self)
        ensures
            map@ == Map::<Seq<char>, usize>::empty(),
    {
        let map = LabelPtrMap { offsets: StringHashMap::new() };
        assert(map@ =~= Map::<Seq<char>, usize>::empty());
        map
    }

    /// The offsets of a map fit in a compression pointer.
    pub proof fn lemma_offsets_fit(&self)
        ensures
            offsets_fit(self@),
    {
    }

    /// The offset recorded for `suffix`, if there is one.
    pub fn get(&self, suffix: &str) -> (found: Option<usize>)
        ensures
            offsets_fit(self@),
            match found {
                Some(offset) => self@.contains_key(suffix@) && self@[suffix@] == offset,
                None => !self@.contains_key(suffix@),
            },
    {
        match self.offsets.get(suffix) {
            Some(offset) => if *offset < POINTER_LIMIT {
                Some(*offset)
            } else {
                None
            },
            None => None,
        }
    }

    /// Records that `suffix` begins at `offset`, unless the suffix is known
    /// already or the offset does not fit in a compression pointer.
    pub fn record(&mut self, suffix: &str, offset: usize)
        ensures
            final(self)@ == spec_record(old(self)@, suffix@, offset as int),
    {
        if offset < POINTER_LIMIT && self.get(suffix).is_none() {
            self.offsets.insert(suffix.to_owned(), offset);
            assert(self@ =~= old(self)@.insert(suffix@, offset));
        }
    }
}

/// The map after `key` was seen at `offset`: the first offset of a suffix
/// stays, and an offset that no pointer can name is not kept.
pub open spec fn spec_record(map: Map<Seq<char>, usize>, key: Seq<char>, offset: int) -> Map<
    Seq<char>,
    usize,
> {
    if 0 <= offset < POINTER_LIMIT && !map.contains_key(key) {
        map.insert(key, offset as usize)
    } else {
        map
    }
}

/// The number of bytes from `i` on before the next dot, or before the end.
pub open spec fn label_len(bytes: Seq<u8>, i: int) -> nat
    decreases bytes.len() - i,
{
    if i < 0 || i >= bytes.len() || bytes[i] == DOT {
        0
    } else {
        1 + label_len(bytes, i + 1)
    }
}

/// A label ends at a dot or at the end of the bytes.
pub proof fn lemma_label_len_bound(bytes: Seq<u8>, i: int)
    requires
        0 <= i <= bytes.len(),
    ensures
        i + label_len(bytes, i) <= bytes.len(),
        i + label_len(bytes, i) < bytes.len() ==> bytes[i + label_len(bytes, i)] == DOT,
    decreases bytes.len() - i,
{
    if i < bytes.len() && bytes[i] != DOT {
        lemma_label_len_bound(bytes, i + 1);
    }
}

/// In bytes that end with a dot, every label ends at a dot.
pub proof fn lemma_label_closed(bytes: Seq<u8>, i: int)
    requires
        0 <= i < bytes.len(),
        bytes.last() == DOT,
    ensures
        i + label_len(bytes, i) < bytes.len(),
        bytes[i + label_len(bytes, i)] == DOT,
    decreases bytes.len() - i,
{
    if bytes[i] != DOT {
        lemma_label_closed(bytes, i + 1);
    }
}

/// What is wrong with the labels of `bytes` from `i` on, the first fault
/// from the left: an empty label, or one of more than 63 bytes.
pub open spec fn spec_label_error(bytes: Seq<u8>, i: int) -> Option<DNSError>
    decreases bytes.len() + 1 - i,
    via spec_label_error_decreases
{
    if i < 0 || i >= bytes.len() {
        None
    } else if label_len(bytes, i) == 0 {
        Some(DNSError::MalformedName)
    } else if label_len(bytes, i) > MAX_LABEL_LEN {
        Some(DNSError::LabelTooLong)
    } else {
        spec_label_error(bytes, i + label_len(bytes, i) + 1)
    }
}

#[via_fn]
proof fn spec_label_error_decreases(bytes: Seq<u8>, i: int) {
    if 0 <= i < bytes.len() {
        lemma_label_len_bound(bytes, i);
    }
}

/// What is wrong with the dotted name `bytes`, if anything: it must end with
/// a dot, and be the single dot of the root or a sequence of labels of 1 to
/// 63 bytes.
pub open spec fn spec_name_error(bytes: Seq<u8>) -> Option<DNSError> {
    if bytes.len() == 0 || bytes.last() != DOT {
        Some(DNSError::MalformedName)
    } else if bytes.len() == 1 {
        None
    } else {
        spec_label_error(bytes, 0)
    }
}

/// The text under which the suffix of `bytes` from `i` on is recorded.
pub open spec fn suffix_key(bytes: Seq<u8>, i: int) -> Seq<char> {
    decode_utf8(bytes.subrange(i, bytes.len() as int))
}

/// The two bytes of a compression pointer to `offset`.
pub open spec fn spec_pointer(offset: int) -> Seq<u8> {
    seq![(POINTER_TAG + offset / 256) as u8, (offset % 256) as u8]
}

/// The bytes written at `pos` for the labels of `bytes` from `i` on, and the
/// map after them. A suffix that the map knows becomes a pointer to where it
/// was written, and ends the name; any other is recorded at its offset and
/// its first label written, the length before the bytes. A name that ends
/// without a pointer ends with a zero byte.
pub open spec fn spec_encode_labels(
    bytes: Seq<u8>,
    i: int,
    map: Map<Seq<char>, usize>,
    pos: int,
) -> (Seq<u8>, Map<Seq<char>, usize>)
    decreases bytes.len() + 1 - i,
    via spec_encode_labels_decreases
{
    if i < 0 || i >= bytes.len() {
        (seq![0u8], map)
    } else if map.contains_key(suffix_key(bytes, i)) {
        (spec_pointer(map[suffix_key(bytes, i)] as int), map)
    } else {
        let n = label_len(bytes, i);
        let (tail, last) = spec_encode_labels(
            bytes,
            i + n + 1,
            spec_record(map, suffix_key(bytes, i), pos),
            pos + n + 1,
        );
        (seq![(n % 256) as u8] + bytes.subrange(i, i + n) + tail, last)
    }
}

#[via_fn]
proof fn spec_encode_labels_decreases(
    bytes: Seq<u8>,
    i: int,
    map: Map<Seq<char>, usize>,
    pos: int,
) {
    if 0 <= i < bytes.len() {
        lemma_label_len_bound(bytes, i);
    }
}

/// The encoding at `pos` of the dotted name `bytes` and the map after it, or
/// the fault of the name.
#[verifier::opaque]
pub open spec fn spec_encode_name(bytes: Seq<u8>, map: Map<Seq<char>, usize>, pos: int) -> Result<
    (Seq<u8>, Map<Seq<char>, usize>),
    DNSError,
> {
    match spec_name_error(bytes) {
        Some(e) => Err(e),
        None => Ok(
            if bytes.len() == 1 {
                (seq![0u8], map)
            } else {
                spec_encode_labels(bytes, 0, map, pos)
            },
        ),
    }
}

/// In UTF-8, the byte after an ASCII byte begins a character.
pub proof fn lemma_boundary_after_ascii(bytes: Seq<u8>, e: int)
    requires
        valid_utf8(bytes),
        0 <= e < bytes.len(),
        bytes[e] <= 0x7f,
    ensures
        is_char_boundary(bytes, e + 1),
    decreases bytes.len(),
{
    let w = length_of_first_scalar(bytes);
    let rest = pop_first_scalar(bytes);
    if e < w {
        assert(w == 1 && e == 0);
        assert(is_char_boundary(rest, 0));
    } else {
        assert(rest[e - w] == bytes[e]);
        lemma_boundary_after_ascii(rest, e - w);
    }
}

/// Finds the end of the label that begins at `i`.
fn scan_label(bytes: &[u8], i: usize) -> (n: usize)
    requires
        i <= bytes@.len(),
    ensures
        n == label_len(bytes@, i as int),
        i + n <= bytes@.len(),
        i + n < bytes@.len() ==> bytes@[i + n] == DOT,
{
    let mut j: usize = i;
    while j < bytes.len() && bytes[j] != DOT
        invariant
            i <= j <= bytes@.len(),
            label_len(bytes@, i as int) == (j - i) + label_len(bytes@, j as int),
        decreases bytes@.len() - j,
    {
        j += 1;
    }
    j - i
}

/// Looks for the first fault among the labels of a name that ends with a dot.
fn check_labels(bytes: &[u8]) -> (fault: Option<DNSError>)
    ensures
        fault == spec_label_error(bytes@, 0),
{
    let mut i: usize = 0;
    while i < bytes.len()
        invariant
            spec_label_error(bytes@, 0) == spec_label_error(bytes@, i as int),
        decreases bytes@.len() - i,
    {
        let n = scan_label(bytes, i);
        if n == 0 {
            return Some(DNSError::MalformedName);
        }
        if n > MAX_LABEL_LEN {
            return Some(DNSError::LabelTooLong);
        }
        if n + 1 > bytes.len() - i {
            assert(spec_label_error(bytes@, i + n + 1) is None);
            return None;
        }
        i = i + n + 1;
    }
    None
}

/// The 16-bit number whose big-endian bytes stand at `pos`.
pub open spec fn spec_u16_at(data: Seq<u8>, pos: int) -> u16 {
    (data[pos] * 256 + data[pos + 1]) as u16
}

/// The 32-bit number whose big-endian bytes stand at `pos`.
pub open spec fn spec_u32_at(data: Seq<u8>, pos: int) -> u32 {
    (data[pos] * 16777216 + data[pos + 1] * 65536 + data[pos + 2] * 256 + data[pos + 3]) as u32
}

/// The big-endian bytes of a 16-bit number.
pub open spec fn spec_u16_bytes(v: u16) -> Seq<u8> {
    seq![(v / 256) as u8, (v % 256) as u8]
}

/// The big-endian bytes of a 32-bit number.
pub open spec fn spec_u32_bytes(v: u32) -> Seq<u8> {
    seq![
        (v / 16777216) as u8,
        (v / 65536 % 256) as u8,
        (v / 256 % 256) as u8,
        (v % 256) as u8,
    ]
}

/// Reads the big-endian 16-bit number at `pos`.
pub fn read_u16(data: &[u8], pos: usize) -> (v: u16)
    requires
        pos + 2 <= data@.len(),
    ensures
        v == spec_u16_at(data@, pos as int),
{
    data[pos] as u16 * 256 + data[pos + 1] as u16
}

/// Reads the big-endian 32-bit number at `pos`.
pub fn read_u32(data: &[u8], pos: usize) -> (v: u32)
    requires
        pos + 4 <= data@.len(),
    ensures
        v == spec_u32_at(data@, pos as int),
{
    data[pos] as u32 * 16777216 + data[pos + 1] as u32 * 65536 + data[pos + 2] as u32 * 256
        + data[pos + 3] as u32
}

/// Appends the big-endian bytes of `v`.
pub fn push_u16(out: &mut Vec<u8>, v: u16)
    ensures
        final(out)@ == old(out)@ + spec_u16_bytes(v),
{
    out.push((v / 256) as u8);
    out.push((v % 256) as u8);
    assert(out@ =~= old(out)@ + spec_u16_bytes(v));
}

/// Appends the big-endian bytes of `v`.
pub fn push_u32(out: &mut Vec<u8>, v: u32)
    ensures
        final(out)@ == old(out)@ + spec_u32_bytes(v),
{
    out.push((v / 16777216) as u8);
    out.push((v / 65536 % 256) as u8);
    out.push((v / 256 % 256) as u8);
    out.push((v % 256) as u8);
    assert(out@ =~= old(out)@ + spec_u32_bytes(v));
}

/// Appends `bytes`.
pub fn push_all(out: &mut Vec<u8>, bytes: &[u8])
    ensures
        final(out)@ == old(out)@ + bytes@,
{
    push_range(out, bytes, 0, bytes.len());
    assert(bytes@.subrange(0, bytes@.len() as int) =~= bytes@);
}

/// A 16-bit number is the one that its big-endian bytes stand for.
pub proof fn lemma_u16_bytes_read(v: u16, data: Seq<u8>, pos: int)
    requires
        0 <= pos,
        pos + 2 <= data.len(),
        data.subrange(pos, pos + 2) == spec_u16_bytes(v),
    ensures
        spec_u16_at(data, pos) == v,
{
    assert(data[pos] == data.subrange(pos, pos + 2)[0]);
    assert(data[pos + 1] == data.subrange(pos, pos + 2)[1]);
}

/// A 32-bit number is the one that its big-endian bytes stand for.
pub proof fn lemma_u32_bytes_read(v: u32, data: Seq<u8>, pos: int)
    requires
        0 <= pos,
        pos + 4 <= data.len(),
        data.subrange(pos, pos + 4) == spec_u32_bytes(v),
    ensures
        spec_u32_at(data, pos) == v,
{
    assert(data[pos] == data.subrange(pos, pos + 4)[0]);
    assert(data[pos + 1] == data.subrange(pos, pos + 4)[1]);
    assert(data[pos + 2] == data.subrange(pos, pos + 4)[2]);
    assert(data[pos + 3] == data.subrange(pos, pos + 4)[3]);
}

/// `pos + by`, or the largest offset where the sum does not fit.
pub open spec fn spec_advance(pos: usize, by: usize) -> usize {
    if pos + by > usize::MAX {
        usize::MAX
    } else {
        (pos + by) as usize
    }
}

/// The offset `by` bytes after `pos`. Where the sum does not fit, the result
/// is the largest offset, which like the sum is out of the reach of a
/// pointer.
pub fn advance(pos: usize, by: usize) -> (at: usize)
    ensures
        at == spec_advance(pos, by),
        at == pos + by || (at >= POINTER_LIMIT && pos + by >= POINTER_LIMIT),
{
    if by > usize::MAX - pos {
        usize::MAX
    } else {
        pos + by
    }
}

/// Beyond the reach of a pointer, where labels are written does not matter.
pub proof fn lemma_encode_labels_far(
    bytes: Seq<u8>,
    i: int,
    map: Map<Seq<char>, usize>,
    pos: int,
    other: int,
)
    requires
        pos >= POINTER_LIMIT,
        other >= POINTER_LIMIT,
    ensures
        spec_encode_labels(bytes, i, map, pos) == spec_encode_labels(bytes, i, map, other),
    decreases bytes.len() + 1 - i,
{
    if 0 <= i < bytes.len() && !map.contains_key(suffix_key(bytes, i)) {
        let n = label_len(bytes, i);
        lemma_label_len_bound(bytes, i);
        lemma_encode_labels_far(bytes, i + n + 1, map, pos + n + 1, other + n + 1);
    }
}

/// Beyond the reach of a pointer, where a name is written does not matter.
pub proof fn lemma_encode_name_far(
    bytes: Seq<u8>,
    map: Map<Seq<char>, usize>,
    pos: int,
    other: int,
)
    requires
        pos >= POINTER_LIMIT,
        other >= POINTER_LIMIT,
    ensures
        spec_encode_name(bytes, map, pos) == spec_encode_name(bytes, map, other),
{
    reveal(spec_encode_name);
    lemma_encode_labels_far(bytes, 0, map, pos, other);
}

/// The codec for domain names on the wire.
pub struct DomainNameLabel {}

impl DomainNameLabel {
    /// Decodes the name at `pos` of the packet `data` into its dotted text,
    /// and says how many bytes the name takes at `pos`. The text ends with a
    /// dot.
    pub fn parse(data: &[u8], pos: usize) -> (r: ParseResult<String>)
        ensures
            match spec_parse_name(data@, pos as int) {
                Ok((text, taken)) => r is Ok && r->Ok_0.0@ == text && r->Ok_0.1 == taken
                    && text.len() > 0 && text.last() == '.' && 0 < taken && pos + taken
                    <= data@.len(),
                Err(e) => r == Err::<(String, usize), DNSError>(e),
            },
    {
        Self::walk(data, pos).0
    }

    /// Decodes the name at `pos` as `parse` does, and counts the steps of
    /// the walk. It follows pointers and keeps the offsets it has been at, so
    /// that a cycle ends the walk: it takes at most as many steps as the
    /// packet has bytes.
    pub fn walk(data: &[u8], pos: usize) -> (r: (ParseResult<String>, usize))
        ensures
            match spec_parse_name(data@, pos as int) {
                Ok((text, taken)) => r.0 is Ok && r.0->Ok_0.0@ == text && r.0->Ok_0.1 == taken
                    && text.len() > 0 && text.last() == '.' && 0 < taken && pos + taken
                    <= data@.len(),
                Err(e) => r.0 == Err::<(String, usize), DNSError>(e),
            },
            r.1 == spec_walk_steps(data@, pos as int, Set::empty(), 0),
            r.1 <= data@.len(),
    {
        reveal(spec_parse_name);
        let mut text = String::new();
        let mut used: usize = 0;
        let mut taken: usize = 0;
        let mut jumped = false;
        let mut cur: usize = pos;
        let mut path: Vec<usize> = Vec::new();
        let ghost whole = spec_walk_name(data@, pos as int, Set::empty(), 0);
        let ghost steps = spec_walk_steps(data@, pos as int, Set::empty(), 0);
        assert(offsets_of(path@) =~= Set::empty());
        proof {
            lemma_walk_steps_bounded(data@, pos as int, Set::empty(), 0);
        }
        loop
            invariant
                used <= MAX_NAME_LEN,
                steps <= data@.len(),
                steps == spec_walk_steps(data@, pos as int, Set::empty(), 0),
                steps == path@.len() + spec_walk_steps(
                    data@,
                    cur as int,
                    offsets_of(path@),
                    used as int,
                ),
                taken <= data@.len(),
                !jumped ==> taken + pos == cur,
                jumped ==> 0 < taken && pos + taken <= data@.len(),
                whole == spec_walk_name(data@, pos as int, Set::empty(), 0),
                whole == match spec_walk_name(data@, cur as int, offsets_of(path@), used as int) {
                    Ok((rest, more)) => Ok(
                        (text@ + rest, if jumped { taken as int } else { taken + more }),
                    ),
                    Err(e) => Err(e),
                },
            decreases unvisited(data@.len(), offsets_of(path@)).len(),
        {
            reveal(spec_parse_name);
            if cur >= data.len() {
                return (Err(DNSError::ShortBuffer), path.len());
            }
            if path_contains(&path, cur) {
                return (Err(DNSError::MalformedName), path.len());
            }
            let ghost seen = offsets_of(path@);
            let b = data[cur];
            if b == 0 {
                if !jumped {
                    taken += 1;
                }
                proof {
                    assert(text@ + Seq::<char>::empty() == text@);
                    lemma_name_ends_with_dot(data@, pos as int);
                }
                if text.as_str().is_empty() {
                    text.append(".");
                    proof {
                        reveal_strlit(".");
                        assert(text@ =~= seq!['.']);
                    }
                }
                return (Ok((text, taken)), path.len());
            }
            proof {
                lemma_unvisited_shrinks(data@.len(), seen, cur as int);
                assert(offsets_of(path@.push(cur)) =~= seen.insert(cur as int)) by {
                    assert forall|p: int| seen.insert(cur as int).contains(p) implies offsets_of(
                        path@.push(cur),
                    ).contains(p) by {
                        if p == cur {
                            assert(path@.push(cur)[path@.len() as int] == cur);
                        } else {
                            let j = choose|j: int| 0 <= j < path@.len() && path@[j] as int == p;
                            assert(path@.push(cur)[j] as int == p);
                        }
                    }
                }
            }
            if b < 64 {
                let n = b as usize;
                if n > data.len() - cur - 1 {
                    return (Err(DNSError::ShortBuffer), path.len());
                }
                if used + n + 1 > MAX_NAME_LEN {
                    return (Err(DNSError::MalformedName), path.len());
                }
                let ghost before = text@;
                let label = text_from_bytes(slice_subrange(data, cur + 1, cur + 1 + n));
                text.append(label.as_str());
                text.append(".");
                proof {
                    reveal_strlit(".");
                    let part = label_text(data@.subrange(cur + 1, cur + 1 + n)).push('.');
                    assert(text@ =~= before + part);
                    assert forall|rest: Seq<char>| (before + part) + rest == before + (part
                        + rest) by {
                        assert((before + part) + rest =~= before + (part + rest));
                    }
                }
                path.push(cur);
                used += n + 1;
                if !jumped {
                    taken += n + 1;
                }
                cur = cur + 1 + n;
            } else if b >= POINTER_TAG {
                if cur + 1 >= data.len() {
                    return (Err(DNSError::ShortBuffer), path.len());
                }
                let target = (b - POINTER_TAG) as usize * 256 + data[cur + 1] as usize;
                if target >= data.len() {
                    return (Err(DNSError::MalformedName), path.len());
                }
                path.push(cur);
                if !jumped {
                    taken += 2;
                    jumped = true;
                }
                cur = target;
            } else {
                return (Err(DNSError::MalformedName), path.len());
            }
        }
    }

    /// Encodes `name` for the offset `ptr` of the packet under construction.
    /// A suffix that `label_ptr_map` knows is written as a pointer; every
    /// other suffix is recorded in the map at the offset where it is written.
    /// A name with a fault is refused and leaves the map as it was.
    pub fn serialize(name: &str, label_ptr_map: &mut LabelPtrMap, ptr: usize) -> (r: Result<
        Vec<u8>,
        DNSError,
    >)
        ensures
            match spec_encode_name(encode_utf8(name@), old(label_ptr_map)@, ptr as int) {
                Ok((bytes, map)) => r is Ok && r->Ok_0@ == bytes && final(label_ptr_map)@ == map,
                Err(e) => r == Err::<Vec<u8>, DNSError>(e) && final(label_ptr_map)@ == old(
                    label_ptr_map,
                )@,
            },
    {
        reveal(spec_encode_name);
        let bytes = name.as_bytes();
        let len = bytes.len();
        if len == 0 || bytes[len - 1] != DOT {
            return Err(DNSError::MalformedName);
        }
        let mut out: Vec<u8> = Vec::new();
        if len == 1 {
            out.push(0);
            assert(out@ == seq![0u8]);
            return Ok(out);
        }
        match check_labels(bytes) {
            Some(e) => {
                return Err(e);
            },
            None => {},
        }
        let ghost whole = spec_encode_labels(bytes@, 0, old(label_ptr_map)@, ptr as int);
        let mut i: usize = 0;
        proof {
            encode_utf8_valid_utf8(name@);
            is_char_boundary_start_end_of_seq(bytes@);
        }
        while i < len
            invariant
                len == bytes@.len(),
                len > 1,
                bytes@.last() == DOT,
                bytes@ == encode_utf8(name@),
                valid_utf8(bytes@),
                spec_name_error(bytes@) is None,
                i <= len,
                is_char_boundary(bytes@, i as int),
                spec_label_error(bytes@, i as int) is None,
                whole == spec_encode_labels(bytes@, 0, old(label_ptr_map)@, ptr as int),
                whole == ({
                    let (tail, last) = spec_encode_labels(
                        bytes@,
                        i as int,
                        label_ptr_map@,
                        ptr + i,
                    );
                    (out@ + tail, last)
                }),
            decreases len - i,
        {
            reveal(spec_encode_name);
            let (_, suffix) = name.split_at(i);
            proof {
                encode_utf8_decode_utf8(suffix@);
                assert(suffix@ == suffix_key(bytes@, i as int));
            }
            match label_ptr_map.get(suffix) {
                Some(offset) => {
                    let ghost before = out@;
                    out.push(POINTER_TAG + (offset / 256) as u8);
                    out.push((offset % 256) as u8);
                    assert(out@ =~= before + spec_pointer(offset as int));
                    return Ok(out);
                },
                None => {},
            }
            let n = scan_label(bytes, i);
            if ptr < POINTER_LIMIT && i < POINTER_LIMIT - ptr {
                label_ptr_map.record(suffix, ptr + i);
            }
            let ghost before = out@;
            out.push(n as u8);
            push_range(&mut out, bytes, i, i + n);
            proof {
                lemma_label_closed(bytes@, i as int);
                lemma_boundary_after_ascii(bytes@, i + n);
                let head = seq![n as u8] + bytes@.subrange(i as int, i + n);
                assert(out@ =~= before + head);
                assert forall|tail: Seq<u8>| (before + head) + tail == before + (head
                    + tail) by {
                    assert((before + head) + tail =~= before + (head + tail));
                }
            }
            i = i + n + 1;
        }
        let ghost before = out@;
        out.push(0);
        assert(out@ =~= before + seq![0u8]);
        Ok(out)
    }
}

} // verus!
