//! Text records: byte strings of up to 255 bytes each.

use crate::parser::common::{push_all, push_range, DNSError, LabelPtrMap};
use crate::parser::record::DNSRecordPack;
use crate::parser::record::TYPE_TXT;
use vstd::prelude::*;

verus! {

/// The data of a TXT record.
#[derive(Debug, PartialEq, Eq, Clone)]
pub struct DNSTXTRecord {
    /// The byte strings, in the order of the wire.
    pub segments: Vec<Vec<u8>>,
}

/// The byte strings of a vector as mathematical values.
pub open spec fn segments_view(segments: Seq<Vec<u8>>) -> Seq<Seq<u8>> {
    Seq::new(segments.len(), |i: int| segments[i]@)
}

impl View for DNSTXTRecord {
    type V = Seq<Seq<u8>>;

    open spec fn view(&self) -> Seq<Seq<u8>> {
        segments_view(self.segments@)
    }
}

/// The longest byte string of a TXT record.
pub const MAX_SEGMENT_LEN: usize = 255;

/// The byte strings that fill the bytes from `pos` up to `end`, each with
/// its length in the byte before it.
pub open spec fn spec_parse_segments(data: Seq<u8>, pos: int, end: int) -> Result<
    Seq<Seq<u8>>,
    DNSError,
>
    decreases end - pos,
{
    if pos < 0 || pos >= end || end > data.len() {
        Ok(Seq::empty())
    } else if pos + 1 + data[pos] > end {
        Err(DNSError::ShortBuffer)
    } else {
        match spec_parse_segments(data, pos + 1 + data[pos], end) {
            Ok(rest) => Ok(seq![data.subrange(pos + 1, pos + 1 + data[pos])] + rest),
            Err(e) => Err(e),
        }
    }
}

/// The byte strings in the `len` bytes of record data at `start`.
pub open spec fn spec_parse_txt(data: Seq<u8>, start: int, len: int) -> Result<
    Seq<Seq<u8>>,
    DNSError,
> {
    if start + len > data.len() {
        Err(DNSError::ShortBuffer)
    } else {
        spec_parse_segments(data, start, start + len)
    }
}

/// The byte strings written one behind the other, each with its length in
/// the byte before it; none may be longer than 255 bytes.
pub open spec fn spec_encode_segments(segments: Seq<Seq<u8>>) -> Result<Seq<u8>, DNSError>
    decreases segments.len(),
{
    if segments.len() == 0 {
        Ok(Seq::empty())
    } else if segments[0].len() > MAX_SEGMENT_LEN {
        Err(DNSError::InvalidRdataLength)
    } else {
        match spec_encode_segments(segments.drop_first()) {
            Ok(rest) => Ok(seq![segments[0].len() as u8] + segments[0] + rest),
            Err(e) => Err(e),
        }
    }
}

impl DNSRecordPack for DNSTXTRecord {
    const RTYPE: u16 = TYPE_TXT;

    open spec fn spec_parse(data: Seq<u8>, start: int, len: int) -> Result<
        Seq<Seq<u8>>,
        DNSError,
    > {
        spec_parse_txt(data, start, len)
    }

    open spec fn spec_serialize(
        segments: Seq<Seq<u8>>,
        map: Map<Seq<char>, usize>,
        pos: int,
    ) -> (Result<Seq<u8>, DNSError>, Map<Seq<char>, usize>) {
        (spec_encode_segments(segments), map)
    }

    fn parse(data: &[u8], startptr: usize, len: usize) -> (r: Result<Self, DNSError>) {
        if len > data.len() || startptr > data.len() - len {
            return Err(DNSError::ShortBuffer);
        }
        let end = startptr + len;
        let mut segments: Vec<Vec<u8>> = Vec::new();
        let mut ptr: usize = startptr;
        let ghost whole = spec_parse_segments(data@, startptr as int, end as int);
        assert(segments_view(segments@) =~= Seq::<Seq<u8>>::empty());
        while ptr < end
            invariant
                startptr <= ptr <= end <= data@.len(),
                end == startptr + len,
                whole == spec_parse_segments(data@, startptr as int, end as int),
                whole == match spec_parse_segments(data@, ptr as int, end as int) {
                    Ok(rest) => Ok(segments_view(segments@) + rest),
                    Err(e) => Err(e),
                },
            decreases end - ptr,
        {
            let seg_len = data[ptr] as usize;
            if seg_len > end - ptr - 1 {
                return Err(DNSError::ShortBuffer);
            }
            let mut segment: Vec<u8> = Vec::new();
            push_range(&mut segment, data, ptr + 1, ptr + 1 + seg_len);
            proof {
                let before = segments_view(segments@);
                let after = segments_view(segments@.push(segment));
                assert(after =~= before + seq![segment@]);
                assert forall|rest: Seq<Seq<u8>>| (before + seq![segment@]) + rest == before
                    + (seq![segment@] + rest) by {
                    assert((before + seq![segment@]) + rest =~= before + (seq![segment@]
                        + rest));
                }
            }
            segments.push(segment);
            ptr = ptr + 1 + seg_len;
        }
        assert(segments_view(segments@) + Seq::<Seq<u8>>::empty() =~= segments_view(segments@));
        Ok(Self { segments })
    }

    fn serialize(&self, label_ptr_map: &mut LabelPtrMap, ptr: usize) -> (r: Result<
        Vec<u8>,
        DNSError,
    >) {
        let mut data: Vec<u8> = Vec::new();
        let ghost all = segments_view(self.segments@);
        let mut k: usize = 0;
        assert(all.skip(0) =~= all);
        while k < self.segments.len()
            invariant
                k <= self.segments@.len(),
                all == segments_view(self.segments@),
                spec_encode_segments(all) == match spec_encode_segments(all.skip(k as int)) {
                    Ok(rest) => Ok(data@ + rest),
                    Err(e) => Err(e),
                },
            decreases self.segments@.len() - k,
        {
            let segment = &self.segments[k];
            proof {
                assert(all.skip(k as int)[0] == segment@);
                assert(all.skip(k as int).drop_first() =~= all.skip(k + 1));
            }
            if segment.len() > MAX_SEGMENT_LEN {
                return Err(DNSError::InvalidRdataLength);
            }
            let ghost before = data@;
            data.push(segment.len() as u8);
            push_all(&mut data, segment.as_slice());
            proof {
                let first = seq![segment@.len() as u8] + segment@;
                assert(data@ =~= before + first);
                assert forall|rest: Seq<u8>| (before + first) + rest == before + (first
                    + rest) by {
                    assert((before + first) + rest =~= before + (first + rest));
                }
            }
            k += 1;
        }
        assert(data@ + Seq::<u8>::empty() =~= data@);
        Ok(data)
    }
}

} // verus!
