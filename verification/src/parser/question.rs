//! The question section.

use crate::parser::common::{
    advance, lemma_encode_name_far, push_all, push_u16, read_u16, spec_encode_name,
    spec_parse_name, spec_u16_at, spec_u16_bytes, DNSError, DomainNameLabel, LabelPtrMap,
    ParseResult, POINTER_LIMIT,
};
use vstd::prelude::*;
use vstd::utf8::*;

verus! {

/// What is asked: a name, a record type and a class.
#[derive(Debug, Clone, PartialEq, Eq)]
pub struct DNSQuestion {
    /// Domain name, dotted, with its closing dot.
    pub name: String,
    /// Record type (16 bits).
    pub rtype: u16,
    /// Class (16 bits).
    pub class: u16,
}

/// A question as a mathematical value.
pub struct QuestionView {
    pub name: Seq<char>,
    pub rtype: u16,
    pub class: u16,
}

impl View for DNSQuestion {
    type V = QuestionView;

    open spec fn view(&self) -> QuestionView {
        QuestionView { name: self.name@, rtype: self.rtype, class: self.class }
    }
}

/// The questions of a vector as mathematical values.
pub open spec fn questions_view(questions: Seq<DNSQuestion>) -> Seq<QuestionView> {
    Seq::new(questions.len(), |i: int| questions[i]@)
}

/// The question at `pos` and the bytes it takes: a name, and two 16-bit
/// numbers after it.
#[verifier::opaque]
pub open spec fn spec_parse_question(data: Seq<u8>, pos: int) -> Result<
    (QuestionView, int),
    DNSError,
> {
    match spec_parse_name(data, pos) {
        Err(e) => Err(e),
        Ok((text, taken)) => if pos + taken + 4 > data.len() {
            Err(DNSError::ShortBuffer)
        } else {
            Ok(
                (
                    QuestionView {
                        name: text,
                        rtype: spec_u16_at(data, pos + taken),
                        class: spec_u16_at(data, pos + taken + 2),
                    },
                    taken + 4,
                ),
            )
        },
    }
}

/// The `count` questions from `pos` on, one behind the other, and the bytes
/// they take together.
pub open spec fn spec_parse_questions(data: Seq<u8>, pos: int, count: nat) -> Result<
    (Seq<QuestionView>, int),
    DNSError,
>
    decreases count,
{
    if count == 0 {
        Ok((Seq::empty(), 0))
    } else {
        match spec_parse_question(data, pos) {
            Err(e) => Err(e),
            Ok((first, taken)) => match spec_parse_questions(
                data,
                pos + taken,
                (count - 1) as nat,
            ) {
                Err(e) => Err(e),
                Ok((rest, more)) => Ok((seq![first] + rest, taken + more)),
            },
        }
    }
}

/// The bytes of a question written at `pos`, or the fault of its name, and
/// the map after it.
#[verifier::opaque]
pub open spec fn spec_encode_question(
    q: QuestionView,
    map: Map<Seq<char>, usize>,
    pos: int,
) -> (Result<Seq<u8>, DNSError>, Map<Seq<char>, usize>) {
    match spec_encode_name(encode_utf8(q.name), map, pos) {
        Err(e) => (Err(e), map),
        Ok((bytes, after)) => (
            Ok(bytes + spec_u16_bytes(q.rtype) + spec_u16_bytes(q.class)),
            after,
        ),
    }
}

/// The bytes of the questions written one behind the other from `pos` on,
/// or the fault of the first that has one, and the map after what was
/// written.
pub open spec fn spec_encode_questions(
    qs: Seq<QuestionView>,
    map: Map<Seq<char>, usize>,
    pos: int,
) -> (Result<Seq<u8>, DNSError>, Map<Seq<char>, usize>)
    decreases qs.len(),
{
    if qs.len() == 0 {
        (Ok(Seq::empty()), map)
    } else {
        match spec_encode_question(qs[0], map, pos) {
            (Err(e), after) => (Err(e), after),
            (Ok(first), after) => match spec_encode_questions(
                qs.drop_first(),
                after,
                pos + first.len(),
            ) {
                (Err(e), last) => (Err(e), last),
                (Ok(rest), last) => (Ok(first + rest), last),
            },
        }
    }
}

/// Beyond the reach of a pointer, where a question is written does not
/// matter.
pub proof fn lemma_encode_question_far(
    q: QuestionView,
    map: Map<Seq<char>, usize>,
    pos: int,
    other: int,
)
    requires
        pos >= POINTER_LIMIT,
        other >= POINTER_LIMIT,
    ensures
        spec_encode_question(q, map, pos) == spec_encode_question(q, map, other),
{
    reveal(spec_encode_question);
    lemma_encode_name_far(encode_utf8(q.name), map, pos, other);
}

/// Reads questions out of a packet.
pub struct DNSQuestionParser<'data> {
    /// The packet that the questions are read from.
    pub packet: &'data [u8],
}

impl<'data> DNSQuestionParser<'data> {
    /// A parser of the questions of `packet`.
    pub fn new(packet: &'data [u8]) -> (parser: Self)
        ensures
            parser.packet@ == packet@,
    {
        Self { packet }
    }

    /// Reads `num_questions` questions from `startptr` on.
    pub fn parse(&self, num_questions: usize, startptr: usize) -> (r: ParseResult<
        Vec<DNSQuestion>,
    >)
        ensures
            match spec_parse_questions(
                self.packet@,
                startptr as int,
                num_questions as nat,
            ) {
                Ok((questions, taken)) => r is Ok && questions_view(r->Ok_0.0@) == questions
                    && r->Ok_0.1 == taken && (num_questions > 0 ==> startptr + taken
                    <= self.packet@.len() <= usize::MAX),
                Err(e) => r == Err::<(Vec<DNSQuestion>, usize), DNSError>(e),
            },
    {
        let mut ptr: usize = startptr;
        let mut result: Vec<DNSQuestion> = Vec::new();
        let ghost whole = spec_parse_questions(
            self.packet@,
            startptr as int,
            num_questions as nat,
        );
        let mut k: usize = 0;
        assert(questions_view(result@) =~= Seq::<QuestionView>::empty());
        while k < num_questions
            invariant
                k <= num_questions,
                startptr <= ptr,
                k > 0 ==> ptr <= self.packet@.len() <= usize::MAX,
                whole == spec_parse_questions(
                    self.packet@,
                    startptr as int,
                    num_questions as nat,
                ),
                whole == match spec_parse_questions(
                    self.packet@,
                    ptr as int,
                    (num_questions - k) as nat,
                ) {
                    Ok((rest, more)) => Ok(
                        (questions_view(result@) + rest, ptr - startptr + more),
                    ),
                    Err(e) => Err(e),
                },
            decreases num_questions - k,
        {
            let (question, len) = self.parse_question(ptr)?;
            proof {
                let before = questions_view(result@);
                let after = questions_view(result@.push(question));
                assert(after =~= before + seq![question@]);
                assert forall|rest: Seq<QuestionView>| (before + seq![question@]) + rest
                    == before + (seq![question@] + rest) by {
                    assert((before + seq![question@]) + rest =~= before + (seq![question@]
                        + rest));
                }
            }
            result.push(question);
            ptr += len;
            k += 1;
        }
        assert(questions_view(result@) + Seq::<QuestionView>::empty() =~= questions_view(
            result@,
        ));
        Ok((result, ptr - startptr))
    }

    /// Reads the question at `ptr`.
    pub fn parse_question(&self, ptr: usize) -> (r: ParseResult<DNSQuestion>)
        ensures
            match spec_parse_question(self.packet@, ptr as int) {
                Ok((question, taken)) => r is Ok && r->Ok_0.0@ == question && r->Ok_0.1
                    == taken && ptr + taken <= self.packet@.len() <= usize::MAX,
                Err(e) => r == Err::<(DNSQuestion, usize), DNSError>(e),
            },
    {
        reveal(spec_parse_question);
        let (name, consumed_len) = DomainNameLabel::parse(self.packet, ptr)?;
        if 4 > self.packet.len() - ptr - consumed_len {
            return Err(DNSError::ShortBuffer);
        }
        let end = ptr + consumed_len;
        Ok(
            (
                DNSQuestion {
                    name,
                    rtype: read_u16(self.packet, end),
                    class: read_u16(self.packet, end + 2),
                },
                consumed_len + 4,
            ),
        )
    }
}

/// Reads questions out of a packet.
pub type DNSQuestionsParser<'data> = DNSQuestionParser<'data>;

/// Writes questions for a packet under construction.
pub struct DNSQuestionSerializer<'data, 'lmap> {
    /// The questions to write.
    pub dns_questions: &'data [DNSQuestion],
    /// The suffixes written so far in the packet.
    pub label_ptr_map: &'lmap mut LabelPtrMap,
    /// The offset in the packet at which the questions begin.
    pub ptr: usize,
}

impl<'data, 'lmap> DNSQuestionSerializer<'data, 'lmap> {
    /// A serializer of `dns_questions` for the offset `ptr` of a packet whose
    /// suffixes so far are in `label_ptr_map`.
    pub fn new(
        dns_questions: &'data [DNSQuestion],
        label_ptr_map: &'lmap mut LabelPtrMap,
        ptr: usize,
    ) -> (s: Self)
        ensures
            s.dns_questions@ == dns_questions@,
            *s.label_ptr_map == *old(label_ptr_map),
            *final(s.label_ptr_map) == *final(label_ptr_map),
            s.ptr == ptr,
    {
        Self { dns_questions, label_ptr_map, ptr }
    }

    /// Writes the questions one behind the other, and records their suffixes
    /// in the map.
    pub fn serialize(&mut self) -> (r: Result<Vec<u8>, DNSError>)
        ensures
            final(self).dns_questions@ == old(self).dns_questions@,
            final(self).ptr == old(self).ptr,
            *final(final(self).label_ptr_map) == *final(old(self).label_ptr_map),
            ({
                let (bytes, map) = spec_encode_questions(
                    questions_view(old(self).dns_questions@),
                    old(self).label_ptr_map@,
                    old(self).ptr as int,
                );
                &&& final(self).label_ptr_map@ == map
                &&& match bytes {
                    Ok(bytes) => r is Ok && r->Ok_0@ == bytes,
                    Err(e) => r == Err::<Vec<u8>, DNSError>(e),
                }
            }),
    {
        let mut data: Vec<u8> = Vec::new();
        let ghost all = questions_view(self.dns_questions@);
        let ghost whole = spec_encode_questions(all, self.label_ptr_map@, self.ptr as int);
        let mut k: usize = 0;
        assert(all.skip(0) =~= all);
        while k < self.dns_questions.len()
            invariant
                k <= self.dns_questions@.len(),
                self.dns_questions@ == old(self).dns_questions@,
                self.ptr == old(self).ptr,
                *final(self.label_ptr_map) == *final(old(self).label_ptr_map),
                all == questions_view(self.dns_questions@),
                whole == spec_encode_questions(
                    all,
                    old(self).label_ptr_map@,
                    old(self).ptr as int,
                ),
                whole == ({
                    let (rest, last) = spec_encode_questions(
                        all.skip(k as int),
                        self.label_ptr_map@,
                        self.ptr + data@.len(),
                    );
                    match rest {
                        Ok(rest) => (Ok(data@ + rest), last),
                        Err(e) => (Err(e), last),
                    }
                }),
            decreases self.dns_questions@.len() - k,
        {
            reveal(spec_encode_question);
            let question = &self.dns_questions[k];
            let at = advance(self.ptr, data.len());
            let ghost before = data@;
            let ghost map = self.label_ptr_map@;
            proof {
                assert(all.skip(k as int)[0] == question@);
                assert(all.skip(k as int).drop_first() =~= all.skip(k + 1));
                if at != self.ptr + data@.len() {
                    lemma_encode_question_far(question@, map, at as int, self.ptr + data@.len());
                }
            }
            match DomainNameLabel::serialize(question.name.as_str(), self.label_ptr_map, at) {
                Err(e) => {
                    return Err(e);
                },
                Ok(name) => {
                    push_all(&mut data, name.as_slice());
                },
            }
            push_u16(&mut data, question.rtype);
            push_u16(&mut data, question.class);
            proof {
                let first = spec_encode_question(question@, map, self.ptr + before.len()).0->Ok_0;
                assert(data@ =~= before + first);
                assert forall|rest: Seq<u8>| (before + first) + rest == before + (first
                    + rest) by {
                    assert((before + first) + rest =~= before + (first + rest));
                }
            }
            k += 1;
        }
        assert(data@ + Seq::<u8>::empty() =~= data@);
        Ok(data)
    }
}

} // verus!
