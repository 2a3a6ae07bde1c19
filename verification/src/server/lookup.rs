//! Iterative resolution: what to ask, and what to make of each response.

use crate::parser::common::DNSError;
use crate::parser::header::{DNSHeader, DNSHeaderType, ResultCode};
use crate::parser::packet::{DNSPacket, PacketView};
use crate::parser::question::{DNSQuestion, QuestionView};
use crate::parser::record::{
    records_view, DNSRecord, DNSRecordData, RecordDataView, RecordView, TYPE_A,
};
use vstd::prelude::*;
use vstd::string::*;
use vstd::utf8::*;

verus! {

/// The most queries that are sent for one name.
pub const MAX_ITERATIONS: usize = 16;

/// The most resolutions that wait for one another: a name, the name of its
/// server, the name of the server of that, and so on.
pub const MAX_DEPTH: usize = 8;

/// The class of the Internet.
pub const CLASS_IN: u16 = 1;

/// The query for the records of type `qtype` of `qname`: recursion is
/// desired, and the one question is all that the message holds.
pub open spec fn spec_query(id: u16, qname: Seq<char>, qtype: u16) -> PacketView {
    PacketView {
        header: DNSHeader {
            id,
            qr: DNSHeaderType::Query,
            opcode: 0,
            aa: false,
            tc: false,
            rd: true,
            ra: false,
            z: 0,
            rcode: ResultCode::NoError,
            qdcount: 1,
            ancount: 0,
            nscount: 0,
            arcount: 0,
        },
        questions: seq![QuestionView { name: qname, rtype: qtype, class: CLASS_IN }],
        answers: Seq::empty(),
        authority: Seq::empty(),
        additional: Seq::empty(),
    }
}

/// Builds the query for the records of type `qtype` of `qname`.
pub fn build_query(id: u16, qname: &str, qtype: u16) -> (query: DNSPacket)
    ensures
        query@ == spec_query(id, qname@, qtype),
{
    let header = DNSHeader {
        id,
        qr: DNSHeaderType::Query,
        opcode: 0,
        aa: false,
        tc: false,
        rd: true,
        ra: false,
        z: 0,
        rcode: ResultCode::NoError,
        qdcount: 1,
        ancount: 0,
        nscount: 0,
        arcount: 0,
    };
    let mut questions: Vec<DNSQuestion> = Vec::new();
    questions.push(DNSQuestion { name: qname.to_owned(), rtype: qtype, class: CLASS_IN });
    let query = DNSPacket {
        header,
        questions,
        answers: Vec::new(),
        authority: Vec::new(),
        additional: Vec::new(),
    };
    proof {
        assert(query@.questions =~= spec_query(id, qname@, qtype).questions);
        assert(query@.answers =~= Seq::<RecordView>::empty());
        assert(query@.authority =~= Seq::<RecordView>::empty());
        assert(query@.additional =~= Seq::<RecordView>::empty());
    }
    query
}

/// `text` ends with the bytes of `tail`.
pub open spec fn spec_ends_with(text: Seq<u8>, tail: Seq<u8>) -> bool {
    &&& tail.len() <= text.len()
    &&& text.subrange(text.len() - tail.len(), text.len() as int) == tail
}

/// Whether `text` ends with the bytes of `tail`.
pub fn ends_with(text: &[u8], tail: &[u8]) -> (yes: bool)
    ensures
        yes == spec_ends_with(text@, tail@),
{
    if tail.len() > text.len() {
        return false;
    }
    let total = text.len();
    let shift = total - tail.len();
    let mut i: usize = 0;
    while i < tail.len()
        invariant
            shift + tail@.len() == text@.len(),
            total == text@.len(),
            i <= tail@.len(),
            forall|j: int| 0 <= j < i ==> text@[shift + j] == tail@[j],
        decreases tail@.len() - i,
    {
        if text[shift + i] != tail[i] {
            assert(text@.subrange(shift as int, text@.len() as int)[i as int] != tail@[i as int]);
            return false;
        }
        i += 1;
    }
    assert(text@.subrange(shift as int, text@.len() as int) =~= tail@);
    true
}

/// The server named by the first NS record from `i` on whose own name the
/// name `qname` ends with.
pub open spec fn spec_first_ns(qname: Seq<char>, authority: Seq<RecordView>, i: int) -> Option<
    Seq<char>,
>
    decreases authority.len() - i,
{
    if i < 0 || i >= authority.len() {
        None
    } else {
        match authority[i].record {
            RecordDataView::NS(target) => if spec_ends_with(
                encode_utf8(qname),
                encode_utf8(authority[i].name),
            ) {
                Some(target)
            } else {
                spec_first_ns(qname, authority, i + 1)
            },
            _ => spec_first_ns(qname, authority, i + 1),
        }
    }
}

/// The address of the first A record from `i` on whose name is `name`.
pub open spec fn spec_first_glue(name: Seq<char>, additional: Seq<RecordView>, i: int) -> Option<
    Seq<u8>,
>
    decreases additional.len() - i,
{
    if i < 0 || i >= additional.len() {
        None
    } else {
        match additional[i].record {
            RecordDataView::A(ip) => if additional[i].name == name {
                Some(ip)
            } else {
                spec_first_glue(name, additional, i + 1)
            },
            _ => spec_first_glue(name, additional, i + 1),
        }
    }
}

/// The address of the first A record from `i` on.
pub open spec fn spec_first_address(answers: Seq<RecordView>, i: int) -> Option<Seq<u8>>
    decreases answers.len() - i,
{
    if i < 0 || i >= answers.len() {
        None
    } else {
        match answers[i].record {
            RecordDataView::A(ip) => Some(ip),
            _ => spec_first_address(answers, i + 1),
        }
    }
}

/// What a response means for the resolution of a name.
#[derive(Debug, PartialEq, Eq, Clone)]
pub enum Referral {
    /// The response holds answers: it is the result.
    Answer,
    /// The response holds neither answers nor a server to ask: it is the
    /// result as it stands.
    Dead,
    /// The response names a server and gives its address: ask there.
    Glue([u8; 4]),
    /// The response names a server without its address: resolve the name of
    /// the server first.
    Glueless(String),
}

/// What a response means, as a mathematical value.
pub enum ReferralView {
    Answer,
    Dead,
    Glue(Seq<u8>),
    Glueless(Seq<char>),
}

impl View for Referral {
    type V = ReferralView;

    open spec fn view(&self) -> ReferralView {
        match self {
            Referral::Answer => ReferralView::Answer,
            Referral::Dead => ReferralView::Dead,
            Referral::Glue(ip) => ReferralView::Glue(ip@),
            Referral::Glueless(name) => ReferralView::Glueless(name@),
        }
    }
}

/// What the response `resp` means for the resolution of `qname`. Answers
/// end it. Without answers, the first NS record of the authority section
/// whose name `qname` ends with names the server to ask next; the first A
/// record of the additional section with the name of that server gives its
/// address.
pub open spec fn spec_decide(qname: Seq<char>, resp: PacketView) -> ReferralView {
    if resp.answers.len() > 0 {
        ReferralView::Answer
    } else {
        match spec_first_ns(qname, resp.authority, 0) {
            None => ReferralView::Dead,
            Some(server) => match spec_first_glue(server, resp.additional, 0) {
                Some(ip) => ReferralView::Glue(ip),
                None => ReferralView::Glueless(server),
            },
        }
    }
}

/// Finds the server named by the first NS record whose own name `qname`
/// ends with.
pub fn first_ns(qname: &str, authority: &[DNSRecord]) -> (found: Option<String>)
    ensures
        match spec_first_ns(qname@, records_view(authority@), 0) {
            Some(server) => found is Some && found->Some_0@ == server,
            None => found is None,
        },
{
    let ghost all = records_view(authority@);
    let mut i: usize = 0;
    while i < authority.len()
        invariant
            i <= authority@.len(),
            all == records_view(authority@),
            spec_first_ns(qname@, all, 0) == spec_first_ns(qname@, all, i as int),
        decreases authority@.len() - i,
    {
        let record = &authority[i];
        assert(all[i as int] == record@);
        match &record.record {
            DNSRecordData::NS(ns) => {
                if ends_with(qname.as_bytes(), record.name.as_str().as_bytes()) {
                    return Some(ns.nsdname.clone());
                }
            },
            _ => {},
        }
        i += 1;
    }
    None
}

/// Finds the address of the first A record whose name is `name`.
pub fn first_glue(name: &String, additional: &[DNSRecord]) -> (found: Option<[u8; 4]>)
    ensures
        match spec_first_glue(name@, records_view(additional@), 0) {
            Some(ip) => found is Some && found->Some_0@ == ip,
            None => found is None,
        },
{
    let ghost all = records_view(additional@);
    let mut i: usize = 0;
    while i < additional.len()
        invariant
            i <= additional@.len(),
            all == records_view(additional@),
            spec_first_glue(name@, all, 0) == spec_first_glue(name@, all, i as int),
        decreases additional@.len() - i,
    {
        let record = &additional[i];
        assert(all[i as int] == record@);
        match &record.record {
            DNSRecordData::A(a) => {
                if record.name == *name {
                    return Some(a.ip);
                }
            },
            _ => {},
        }
        i += 1;
    }
    None
}

/// Finds the address of the first A record.
pub fn first_address(answers: &[DNSRecord]) -> (found: Option<[u8; 4]>)
    ensures
        match spec_first_address(records_view(answers@), 0) {
            Some(ip) => found is Some && found->Some_0@ == ip,
            None => found is None,
        },
{
    let ghost all = records_view(answers@);
    let mut i: usize = 0;
    while i < answers.len()
        invariant
            i <= answers@.len(),
            all == records_view(answers@),
            spec_first_address(all, 0) == spec_first_address(all, i as int),
        decreases answers@.len() - i,
    {
        let record = &answers[i];
        assert(all[i as int] == record@);
        match &record.record {
            DNSRecordData::A(a) => {
                return Some(a.ip);
            },
            _ => {},
        }
        i += 1;
    }
    None
}

/// Says what the response `resp` means for the resolution of `qname`.
pub fn decide(qname: &str, resp: &DNSPacket) -> (referral: Referral)
    ensures
        referral@ == spec_decide(qname@, resp@),
{
    if resp.answers.len() > 0 {
        return Referral::Answer;
    }
    match first_ns(qname, resp.authority.as_slice()) {
        None => Referral::Dead,
        Some(server) => match first_glue(&server, resp.additional.as_slice()) {
            Some(ip) => Referral::Glue(ip),
            None => Referral::Glueless(server),
        },
    }
}

/// One resolution under way: the name asked for, the server to ask, and
/// the number of queries that the resolution has sent or is bound to send.
pub struct Frame {
    qname: String,
    qtype: u16,
    server: [u8; 4],
    rounds: usize,
}

/// A resolution under way, as a mathematical value.
pub struct FrameView {
    pub qname: Seq<char>,
    pub qtype: u16,
    pub server: Seq<u8>,
    pub rounds: nat,
}

impl View for Frame {
    type V = FrameView;

    closed spec fn view(&self) -> FrameView {
        FrameView {
            qname: self.qname@,
            qtype: self.qtype,
            server: self.server@,
            rounds: self.rounds as nat,
        }
    }
}

/// The state of a resolution: the name that was asked for at the bottom,
/// and above it the names of servers that have to be resolved first, each
/// for the one below it.
pub struct Resolver {
    frames: Vec<Frame>,
    bootstrap: [u8; 4],
}

/// The state of a resolution, as a mathematical value.
pub struct ResolverView {
    pub frames: Seq<FrameView>,
    pub bootstrap: Seq<u8>,
}

impl View for Resolver {
    type V = ResolverView;

    closed spec fn view(&self) -> ResolverView {
        ResolverView {
            frames: Seq::new(self.frames@.len(), |i: int| self.frames@[i]@),
            bootstrap: self.bootstrap@,
        }
    }
}

/// A state in which a query is due: at least one resolution is under way and
/// at most eight are, and each has sent between one and sixteen queries.
pub open spec fn spec_live(r: ResolverView) -> bool {
    &&& 0 < r.frames.len() <= MAX_DEPTH
    &&& forall|i: int|
        0 <= i < r.frames.len() ==> 1 <= (#[trigger] r.frames[i]).rounds <= MAX_ITERATIONS
}

/// What the resolver does next.
pub enum Step {
    /// Send the query that the state holds, and come back with the response.
    Ask(Resolver),
    /// The resolution has ended, with a response or with an error.
    Done(Result<DNSPacket, DNSError>),
}

/// What the resolver does next, as a mathematical value.
pub enum StepView {
    Ask(ResolverView),
    Done(Result<PacketView, DNSError>),
}

impl View for Step {
    type V = StepView;

    open spec fn view(&self) -> StepView {
        match self {
            Step::Ask(r) => StepView::Ask(r@),
            Step::Done(Ok(packet)) => StepView::Done(Ok(packet@)),
            Step::Done(Err(e)) => StepView::Done(Err(*e)),
        }
    }
}

/// What came back for a query, as a mathematical value.
pub open spec fn spec_event(event: Result<DNSPacket, DNSError>) -> Result<PacketView, DNSError> {
    match event {
        Ok(packet) => Ok(packet@),
        Err(e) => Err(e),
    }
}

/// The state in which the resolution of `qname` begins: its first query
/// goes to the bootstrap server.
pub open spec fn spec_start(bootstrap: Seq<u8>, qname: Seq<char>, qtype: u16) -> ResolverView {
    ResolverView {
        frames: seq![FrameView { qname, qtype, server: bootstrap, rounds: 1 }],
        bootstrap,
    }
}

/// The end of the topmost resolution with the response `resp`, the
/// resolutions in `frames` waiting below it. The one that waited for it
/// goes on at the first address among the answers; where there is none, it
/// ends with the same response, and so on downwards. When none is left, the
/// response is the result.
pub open spec fn spec_finish(frames: Seq<FrameView>, bootstrap: Seq<u8>, resp: PacketView)
    -> StepView
    decreases frames.len(),
{
    if frames.len() == 0 {
        StepView::Done(Ok(resp))
    } else {
        match spec_first_address(resp.answers, 0) {
            Some(ip) => StepView::Ask(
                ResolverView {
                    frames: frames.drop_last().push(FrameView { server: ip, ..frames.last() }),
                    bootstrap,
                },
            ),
            None => spec_finish(frames.drop_last(), bootstrap, resp),
        }
    }
}

/// The step that follows when `event` came back for the query of the state
/// `r`.
///
/// An error ends the resolution. A response with answers, or without a
/// server to ask, ends the topmost resolution. A referral with an address
/// sends the next query for the same name to that address. A referral
/// without one begins the resolution of the server's name, from the
/// bootstrap server, for an A record; the resolution that waits is bound to
/// one more query. Where the seventeenth query for a name or a ninth
/// resolution would be due, the resolution ends as exhausted.
pub open spec fn spec_step(r: ResolverView, event: Result<PacketView, DNSError>) -> StepView {
    match event {
        Err(e) => StepView::Done(Err(e)),
        Ok(resp) => {
            let top = r.frames.last();
            let below = r.frames.drop_last();
            match spec_decide(top.qname, resp) {
                ReferralView::Answer => spec_finish(below, r.bootstrap, resp),
                ReferralView::Dead => spec_finish(below, r.bootstrap, resp),
                ReferralView::Glue(ip) => if top.rounds >= MAX_ITERATIONS {
                    StepView::Done(Err(DNSError::ResolutionExhausted))
                } else {
                    StepView::Ask(
                        ResolverView {
                            frames: below.push(
                                FrameView { server: ip, rounds: top.rounds + 1, ..top },
                            ),
                            bootstrap: r.bootstrap,
                        },
                    )
                },
                ReferralView::Glueless(server) => if top.rounds >= MAX_ITERATIONS
                    || r.frames.len() >= MAX_DEPTH {
                    StepView::Done(Err(DNSError::ResolutionExhausted))
                } else {
                    StepView::Ask(
                        ResolverView {
                            frames: below.push(FrameView { rounds: top.rounds + 1, ..top }).push(
                                FrameView {
                                    qname: server,
                                    qtype: TYPE_A,
                                    server: r.bootstrap,
                                    rounds: 1,
                                },
                            ),
                            bootstrap: r.bootstrap,
                        },
                    )
                },
            }
        },
    }
}

impl Resolver {
    /// A query is due.
    pub open spec fn wf(&self) -> bool {
        spec_live(self@)
    }

    /// Begins the resolution of the records of type `qtype` of `qname`, with
    /// `bootstrap` as the address of the server to start from.
    pub fn new(bootstrap: [u8; 4], qname: &str, qtype: u16) -> (r: Self)
        ensures
            r@ == spec_start(bootstrap@, qname@, qtype),
            r.wf(),
    {
        let mut frames: Vec<Frame> = Vec::new();
        frames.push(Frame { qname: qname.to_owned(), qtype, server: bootstrap, rounds: 1 });
        let r = Resolver { frames, bootstrap };
        assert(r@.frames =~= spec_start(bootstrap@, qname@, qtype).frames);
        r
    }

    /// The query that is due: the address of the server to ask, the name and
    /// the record type.
    pub fn query(&self) -> (q: ([u8; 4], String, u16))
        requires
            self.wf(),
        ensures
            q.0@ == self@.frames.last().server,
            q.1@ == self@.frames.last().qname,
            q.2 == self@.frames.last().qtype,
    {
        let top = &self.frames[self.frames.len() - 1];
        (top.server, top.qname.clone(), top.qtype)
    }

    /// The number of resolutions that wait for one another.
    pub fn depth(&self) -> (d: usize)
        ensures
            d == self@.frames.len(),
    {
        self.frames.len()
    }

    /// Takes what came back for the query that was due, and says what to do
    /// next.
    pub fn step(self, event: Result<DNSPacket, DNSError>) -> (next: Step)
        requires
            self.wf(),
        ensures
            next@ == spec_step(self@, spec_event(event)),
            next is Ask ==> next->Ask_0.wf(),
    {
        let resp = match event {
            Err(e) => {
                return Step::Done(Err(e));
            },
            Ok(resp) => resp,
        };
        let ghost before = self@;
        let bootstrap = self.bootstrap;
        let mut frames = self.frames;
        let depth = frames.len();
        let mut top = frames.pop().unwrap();
        let ghost below = Seq::new(frames@.len(), |i: int| frames@[i]@);
        assert(below =~= before.frames.drop_last());
        assert(top@ == before.frames.last());
        assert forall|i: int| 0 <= i < frames@.len() implies 1 <= (#[trigger] frames@[i]@).rounds
            <= MAX_ITERATIONS by {
            assert(frames@[i]@ == below[i]);
            assert(below[i] == before.frames[i]);
        }
        match decide(top.qname.as_str(), &resp) {
            Referral::Answer => Self::finish(frames, bootstrap, resp),
            Referral::Dead => Self::finish(frames, bootstrap, resp),
            Referral::Glue(ip) => {
                if top.rounds >= MAX_ITERATIONS {
                    return Step::Done(Err(DNSError::ResolutionExhausted));
                }
                top.server = ip;
                top.rounds = top.rounds + 1;
                frames.push(top);
                let r = Resolver { frames, bootstrap };
                assert(r@.frames =~= below.push(
                    FrameView {
                        server: ip@,
                        rounds: before.frames.last().rounds + 1,
                        ..before.frames.last()
                    },
                ));
                Step::Ask(r)
            },
            Referral::Glueless(server) => {
                if top.rounds >= MAX_ITERATIONS || depth >= MAX_DEPTH {
                    return Step::Done(Err(DNSError::ResolutionExhausted));
                }
                top.rounds = top.rounds + 1;
                frames.push(top);
                frames.push(Frame { qname: server, qtype: TYPE_A, server: bootstrap, rounds: 1 });
                let r = Resolver { frames, bootstrap };
                assert(r@.frames =~= below.push(
                    FrameView { rounds: before.frames.last().rounds + 1, ..before.frames.last() },
                ).push(
                    FrameView {
                        qname: server@,
                        qtype: TYPE_A,
                        server: bootstrap@,
                        rounds: 1,
                    },
                ));
                Step::Ask(r)
            },
        }
    }

    /// Ends the resolution above `frames` with the response `resp`.
    fn finish(frames: Vec<Frame>, bootstrap: [u8; 4], resp: DNSPacket) -> (next: Step)
        requires
            frames@.len() < MAX_DEPTH,
            forall|i: int|
                0 <= i < frames@.len() ==> 1 <= (#[trigger] frames@[i]@).rounds <= MAX_ITERATIONS,
        ensures
            next@ == spec_finish(
                Seq::new(frames@.len(), |i: int| frames@[i]@),
                bootstrap@,
                resp@,
            ),
            next is Ask ==> next->Ask_0.wf(),
    {
        let mut frames = frames;
        let ghost whole = spec_finish(
            Seq::new(frames@.len(), |i: int| frames@[i]@),
            bootstrap@,
            resp@,
        );
        match first_address(resp.answers.as_slice()) {
            None => {
                while frames.len() > 0
                    invariant
                        spec_first_address(resp@.answers, 0) is None,
                        whole == spec_finish(
                            Seq::new(frames@.len(), |i: int| frames@[i]@),
                            bootstrap@,
                            resp@,
                        ),
                    decreases frames@.len(),
                {
                    let ghost waiting = Seq::new(frames@.len(), |i: int| frames@[i]@);
                    frames.pop();
                    assert(Seq::new(frames@.len(), |i: int| frames@[i]@) =~= waiting.drop_last());
                }
                Step::Done(Ok(resp))
            },
            Some(ip) => {
                let ghost waiting = Seq::new(frames@.len(), |i: int| frames@[i]@);
                match frames.pop() {
                    None => Step::Done(Ok(resp)),
                    Some(parent) => {
                        let mut parent = parent;
                        parent.server = ip;
                        frames.push(parent);
                        let r = Resolver { frames, bootstrap };
                        assert(r@.frames =~= waiting.drop_last().push(
                            FrameView { server: ip@, ..waiting.last() },
                        ));
                        Step::Ask(r)
                    },
                }
            },
        }
    }
}

/// The steps that one query of a resolution can stand for when `levels`
/// more resolutions can wait above it: the query itself, and sixteen
/// queries of the resolution that it may begin.
pub open spec fn spec_cost(levels: nat) -> int
    decreases levels,
{
    if levels == 0 {
        1
    } else {
        1 + MAX_ITERATIONS * spec_cost((levels - 1) as nat)
    }
}

/// A query stands for at least itself.
pub proof fn lemma_cost_positive(levels: nat)
    ensures
        spec_cost(levels) >= 1,
    decreases levels,
{
    if levels > 0 {
        lemma_cost_positive((levels - 1) as nat);
        let above = spec_cost((levels - 1) as nat);
        assert(MAX_ITERATIONS * above >= 0) by (nonlinear_arith)
            requires
                above >= 1,
        ;
    }
}

/// The steps that the resolutions in `frames` can still take: for each the
/// queries that it has left, and what each of these can stand for.
pub open spec fn spec_budget(frames: Seq<FrameView>) -> int
    decreases frames.len(),
{
    if frames.len() == 0 {
        0
    } else {
        spec_budget(frames.drop_last()) + (MAX_ITERATIONS + 1 - frames.last().rounds) * spec_cost(
            (MAX_DEPTH - frames.len()) as nat,
        )
    }
}

/// Every resolution that can still send a query adds to the budget.
pub proof fn lemma_budget_grows(frames: Seq<FrameView>, frame: FrameView)
    requires
        frames.len() < MAX_DEPTH,
        1 <= frame.rounds <= MAX_ITERATIONS,
    ensures
        spec_budget(frames.push(frame)) == spec_budget(frames) + (MAX_ITERATIONS + 1
            - frame.rounds) * spec_cost((MAX_DEPTH - frames.len() - 1) as nat),
        spec_budget(frames.push(frame)) > spec_budget(frames),
{
    let left = MAX_ITERATIONS + 1 - frame.rounds;
    let cost = spec_cost((MAX_DEPTH - frames.len() - 1) as nat);
    assert(frames.push(frame).drop_last() =~= frames);
    lemma_cost_positive((MAX_DEPTH - frames.len() - 1) as nat);
    assert(left * cost >= 1) by (nonlinear_arith)
        requires
            left >= 1,
            cost >= 1,
    ;
}

/// The end of a resolution leaves less budget than the resolutions that
/// waited for it had with it.
pub proof fn lemma_finish_saves(frames: Seq<FrameView>, bootstrap: Seq<u8>, resp: PacketView)
    requires
        frames.len() < MAX_DEPTH,
        forall|i: int|
            0 <= i < frames.len() ==> 1 <= (#[trigger] frames[i]).rounds <= MAX_ITERATIONS,
    ensures
        match spec_finish(frames, bootstrap, resp) {
            StepView::Ask(next) => spec_live(next) && 0 <= spec_budget(next.frames)
                <= spec_budget(frames),
            StepView::Done(_) => true,
        },
        0 <= spec_budget(frames),
    decreases frames.len(),
{
    if frames.len() > 0 {
        let below = frames.drop_last();
        lemma_finish_saves(below, bootstrap, resp);
        lemma_budget_grows(below, frames.last());
        assert(below.push(frames.last()) =~= frames);
        match spec_first_address(resp.answers, 0) {
            Some(ip) => {
                let parent = FrameView { server: ip, ..frames.last() };
                lemma_budget_grows(below, parent);
                let next = below.push(parent);
                assert forall|i: int| 0 <= i < next.len() implies 1 <= (#[trigger] next[i]).rounds
                    <= MAX_ITERATIONS by {
                    if i < below.len() {
                        assert(next[i] == frames[i]);
                    }
                }
            },
            None => {},
        }
    }
}

/// With every step that asks for another query the budget of the resolution
/// shrinks, and it is never below zero: a resolution ends after a bounded
/// number of steps, whatever the responses are.
pub proof fn lemma_step_spends(r: ResolverView, event: Result<PacketView, DNSError>)
    requires
        spec_live(r),
    ensures
        0 <= spec_budget(r.frames),
        match spec_step(r, event) {
            StepView::Ask(next) => spec_live(next) && 0 <= spec_budget(next.frames)
                < spec_budget(r.frames),
            StepView::Done(_) => true,
        },
{
    let top = r.frames.last();
    let below = r.frames.drop_last();
    assert(below.push(top) =~= r.frames);
    assert forall|i: int| 0 <= i < below.len() implies 1 <= (#[trigger] below[i]).rounds
        <= MAX_ITERATIONS by {
        assert(below[i] == r.frames[i]);
    }
    lemma_budget_grows(below, top);
    match event {
        Err(_) => {
            lemma_finish_saves(below, r.bootstrap, spec_query(0, Seq::empty(), 0));
        },
        Ok(resp) => {
            lemma_finish_saves(below, r.bootstrap, resp);
            let levels = (MAX_DEPTH - r.frames.len()) as nat;
            let cost = spec_cost(levels);
            lemma_cost_positive(levels);
            match spec_decide(top.qname, resp) {
                ReferralView::Glue(ip) => {
                    if top.rounds < MAX_ITERATIONS {
                        let moved = FrameView { server: ip, rounds: top.rounds + 1, ..top };
                        lemma_budget_grows(below, moved);
                        let next = below.push(moved);
                        assert((MAX_ITERATIONS + 1 - moved.rounds) * cost < (MAX_ITERATIONS + 1
                            - top.rounds) * cost) by (nonlinear_arith)
                            requires
                                moved.rounds == top.rounds + 1,
                                cost >= 1,
                        ;
                        assert forall|i: int| 0 <= i < next.len() implies 1 <= (
                        #[trigger] next[i]).rounds <= MAX_ITERATIONS by {
                            if i < below.len() {
                                assert(next[i] == below[i]);
                            }
                        }
                    }
                },
                ReferralView::Glueless(server) => {
                    if top.rounds < MAX_ITERATIONS && r.frames.len() < MAX_DEPTH {
                        let waits = FrameView { rounds: top.rounds + 1, ..top };
                        let begun = FrameView {
                            qname: server,
                            qtype: TYPE_A,
                            server: r.bootstrap,
                            rounds: 1,
                        };
                        lemma_budget_grows(below, waits);
                        lemma_budget_grows(below.push(waits), begun);
                        let next = below.push(waits).push(begun);
                        let above = spec_cost((levels - 1) as nat);
                        assert(cost == 1 + MAX_ITERATIONS * above);
                        let left = MAX_ITERATIONS + 1 - top.rounds;
                        assert((left - 1) * cost + MAX_ITERATIONS * above < left * cost) by (
                        nonlinear_arith)
                            requires
                                cost == 1 + MAX_ITERATIONS * above,
                                left >= 1,
                        ;
                        assert forall|i: int| 0 <= i < next.len() implies 1 <= (
                        #[trigger] next[i]).rounds <= MAX_ITERATIONS by {
                            if i < below.len() {
                                assert(next[i] == below[i]);
                            }
                        }
                    }
                },
                _ => {},
            }
        },
    }
}

/// The budget with which a resolution begins: it ends after at most this
/// many steps.
pub proof fn lemma_start_budget(bootstrap: Seq<u8>, qname: Seq<char>, qtype: u16)
    ensures
        spec_live(spec_start(bootstrap, qname, qtype)),
        spec_budget(spec_start(bootstrap, qname, qtype).frames) == 4581298448,
{
    let frames = spec_start(bootstrap, qname, qtype).frames;
    let first = FrameView { qname, qtype, server: bootstrap, rounds: 1 };
    assert(frames =~= Seq::<FrameView>::empty().push(first));
    lemma_budget_grows(Seq::empty(), first);
    reveal_with_fuel(spec_cost, 9);
    assert(spec_cost(7) == 286331153);
}

} // verus!
