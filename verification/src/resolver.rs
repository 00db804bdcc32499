//! Answering a request: either from a fixed record per question, or by
//! handing each question to an upstream server and collecting what comes back.
//!
//! Nothing here sends or receives. `start` and `Resolver::resume` say what is
//! to be done next; the caller does it and comes back with the outcome.

use vstd::prelude::*;
use crate::answer::{AnswerView, DnsAnswer};
use crate::header::DnsHeader;
use crate::message::{answer_views, question_views, DnsMessage, MessageView};
use crate::question::{DnsQuestion, QuestionView, CLASS_IN};

verus! {

/// The type code of the fixed record: an address record.
pub const FIXED_TYPE: u16 = 1;

/// The time to live of the fixed record, in seconds.
pub const FIXED_TTL: u32 = 60;

/// The response code for "no error".
pub const RESCODE_OK: u8 = 0;

/// The response code for "not implemented".
pub const RESCODE_NOT_IMPLEMENTED: u8 = 4;

/// The most answers a reply can count in its header.
pub const MAX_ANSWERS: usize = 65535;

/// The fixed record for `name`: an Internet address record that lives 60
/// seconds and holds the four bytes 8, 8, 8, 8.
pub open spec fn fixed_answer(name: Seq<char>) -> AnswerView {
    AnswerView {
        name,
        qtype: FIXED_TYPE,
        qclass: CLASS_IN,
        ttl: FIXED_TTL,
        rdlength: 4,
        rdata: seq![8u8, 8u8, 8u8, 8u8],
    }
}

/// Makes the fixed record for `domain`.
pub fn make_answer(domain: &str) -> (answer: DnsAnswer)
    ensures
        answer@ == fixed_answer(domain@),
{
    let mut rdata: Vec<u8> = Vec::new();
    rdata.push(8);
    rdata.push(8);
    rdata.push(8);
    rdata.push(8);
    assert(rdata@ =~= seq![8u8, 8u8, 8u8, 8u8]);
    DnsAnswer {
        name: domain.to_owned(),
        qtype: FIXED_TYPE,
        qclass: CLASS_IN,
        ttl: FIXED_TTL,
        rdlength: 4,
        rdata,
    }
}

/// The response code that answers an opcode: "no error" for a standard query,
/// "not implemented" for anything else.
pub open spec fn rescode_for(opcode: u8) -> u8 {
    if opcode == 0 {
        RESCODE_OK
    } else {
        RESCODE_NOT_IMPLEMENTED
    }
}

/// The header of the reply to a request with header `request`, for `answers`
/// answers. Id, question count, opcode and recursion-desired are the
/// request's; the response flag is set; every other flag and count is zero.
pub open spec fn reply_header_of(request: DnsHeader, answers: u16) -> DnsHeader {
    DnsHeader {
        id: request.id,
        response: true,
        recursion_desired: request.recursion_desired,
        truncated_message: false,
        authoritative_answer: false,
        opcode: request.opcode,
        rescode: rescode_for(request.opcode),
        checking_disabled: false,
        authed_data: false,
        z: false,
        recursion_available: false,
        questions: request.questions,
        answers,
        authoritative_entries: 0,
        resource_entries: 0,
    }
}

/// The header of a query that hands one question of a request with header
/// `request` to the upstream server. Id, opcode and recursion-desired are the
/// request's; it counts one question; every other flag and count is zero.
pub open spec fn query_header_of(request: DnsHeader) -> DnsHeader {
    DnsHeader {
        id: request.id,
        response: false,
        recursion_desired: request.recursion_desired,
        truncated_message: false,
        authoritative_answer: false,
        opcode: request.opcode,
        rescode: 0,
        checking_disabled: false,
        authed_data: false,
        z: false,
        recursion_available: false,
        questions: 1,
        answers: 0,
        authoritative_entries: 0,
        resource_entries: 0,
    }
}

/// Builds the header of the reply to a request.
pub fn reply_header(request: &DnsHeader, answers: u16) -> (header: DnsHeader)
    ensures
        header == reply_header_of(*request, answers),
{
    let rescode = if request.opcode == 0 {
        RESCODE_OK
    } else {
        RESCODE_NOT_IMPLEMENTED
    };
    let seed = DnsHeader::default();
    DnsHeader {
        id: request.id,
        questions: request.questions,
        answers,
        opcode: request.opcode,
        recursion_desired: request.recursion_desired,
        rescode,
        response: true,
        authoritative_answer: false,
        truncated_message: false,
        recursion_available: false,
        z: false,
        checking_disabled: seed.checking_disabled,
        authed_data: seed.authed_data,
        authoritative_entries: seed.authoritative_entries,
        resource_entries: seed.resource_entries,
    }
}

/// Builds the header of a query for the upstream server.
pub fn query_header(request: &DnsHeader) -> (header: DnsHeader)
    ensures
        header == query_header_of(*request),
{
    let seed = DnsHeader::default();
    DnsHeader {
        id: request.id,
        questions: 1,
        answers: 0,
        opcode: request.opcode,
        recursion_desired: request.recursion_desired,
        rescode: 0,
        response: false,
        authoritative_answer: false,
        truncated_message: false,
        recursion_available: false,
        z: false,
        checking_disabled: seed.checking_disabled,
        authed_data: seed.authed_data,
        authoritative_entries: seed.authoritative_entries,
        resource_entries: seed.resource_entries,
    }
}

/// The query that hands question `index` of `request` to the upstream server:
/// that question alone, under the query header, with no answers.
pub open spec fn query_of(request: MessageView, index: int) -> MessageView {
    MessageView {
        header: query_header_of(request.header),
        questions: seq![request.questions[index]],
        answers: Seq::empty(),
    }
}

/// The reply to `request` that carries `answers`, of which there are no more
/// than `MAX_ANSWERS`: the questions are the request's, and the header counts
/// the answers.
pub open spec fn reply_of(request: MessageView, answers: Seq<AnswerView>) -> MessageView {
    MessageView {
        header: reply_header_of(request.header, answers.len() as u16),
        questions: request.questions,
        answers,
    }
}

/// Builds the query that hands question `index` of `request` to the upstream
/// server.
pub fn forward_query(request: &DnsMessage, index: usize) -> (query: DnsMessage)
    requires
        index < request.questions@.len(),
    ensures
        query@ == query_of(request@, index as int),
{
    let asked = &request.questions[index];
    let question = DnsQuestion {
        qname: asked.qname.clone(),
        qtype: asked.qtype,
        qclass: asked.qclass,
    };
    let mut questions: Vec<DnsQuestion> = Vec::new();
    questions.push(question);
    let query = DnsMessage {
        header: query_header(&request.header),
        questions,
        answers: Vec::new(),
    };
    assert(query@.questions =~= seq![request@.questions[index as int]]);
    assert(query@.answers =~= Seq::<AnswerView>::empty());
    query
}

/// Builds the reply to `request` that carries `answers`.
pub fn reply_to(request: DnsMessage, answers: Vec<DnsAnswer>) -> (reply: DnsMessage)
    requires
        answers@.len() <= MAX_ANSWERS,
    ensures
        reply@ == reply_of(request@, answer_views(answers@)),
{
    let header = reply_header(&request.header, answers.len() as u16);
    DnsMessage { header, questions: request.questions, answers }
}

/// The name used where a request counts questions but holds none.
pub open spec fn fallback_name() -> Seq<char> {
    "codecrafters.io"@
}

/// The name of the `i`-th fixed answer to `request`: that of question `i`.
/// Where the header counts more questions than the request holds, the
/// answers beyond take the name of the first question, or the fallback name
/// when there is no question at all.
pub open spec fn local_name(request: MessageView, i: int) -> Seq<char> {
    if i < request.questions.len() {
        request.questions[i].qname
    } else if request.questions.len() > 0 {
        request.questions[0].qname
    } else {
        fallback_name()
    }
}

/// The answers given without an upstream server: as many fixed records as the
/// header counts questions, the `i`-th under `local_name(request, i)`.
pub open spec fn local_answers_of(request: MessageView) -> Seq<AnswerView> {
    Seq::new(request.header.questions as nat, |i: int| fixed_answer(local_name(request, i)))
}

/// Makes the answers that are given without an upstream server.
pub fn local_answers(request: &DnsMessage) -> (answers: Vec<DnsAnswer>)
    ensures
        answer_views(answers@) == local_answers_of(request@),
        answers@.len() == request.header.questions,
{
    let count = request.header.questions;
    let held = request.questions.len();
    let mut answers: Vec<DnsAnswer> = Vec::new();
    let mut i: u16 = 0;
    while i < count
        invariant
            i <= count,
            count == request.header.questions,
            held == request.questions@.len(),
            answers@.len() == i,
            forall|k: int|
                0 <= k < i ==> (#[trigger] answers@[k])@ == fixed_answer(local_name(request@, k)),
        decreases count - i,
    {
        let answer = if (i as usize) < held {
            make_answer(request.questions[i as usize].qname.as_str())
        } else if held > 0 {
            make_answer(request.questions[0].qname.as_str())
        } else {
            make_answer("codecrafters.io")
        };
        answers.push(answer);
        i += 1;
    }
    assert(answer_views(answers@) =~= local_answers_of(request@));
    answers
}

/// A request whose questions are being handed to the upstream server one by
/// one: the request, how many of its questions were answered, and the answers
/// that came back so far.
#[derive(Debug, PartialEq, Eq)]
pub struct Resolver {
    request: DnsMessage,
    answered: usize,
    answers: Vec<DnsAnswer>,
}

/// What is to be done next for a request.
#[derive(Debug, PartialEq, Eq)]
pub enum Step {
    /// Send `query` to the upstream server, wait for its reply, and hand the
    /// reply to `resolver`.
    Forward { query: DnsMessage, resolver: Resolver },
    /// Send this reply to the client: the request is done.
    Reply(DnsMessage),
}

/// A `Resolver` as a mathematical value.
pub struct ResolverView {
    pub request: MessageView,
    pub answered: nat,
    pub answers: Seq<AnswerView>,
}

/// A `Step` as a mathematical value.
pub enum StepView {
    Forward { query: MessageView, resolver: ResolverView },
    Reply(MessageView),
}

impl View for Resolver {
    type V = ResolverView;

    closed spec fn view(&self) -> ResolverView {
        ResolverView {
            request: self.request@,
            answered: self.answered as nat,
            answers: answer_views(self.answers@),
        }
    }
}

impl View for Step {
    type V = StepView;

    open spec fn view(&self) -> StepView {
        match *self {
            Step::Forward { query, resolver } => StepView::Forward {
                query: query@,
                resolver: resolver@,
            },
            Step::Reply(reply) => StepView::Reply(reply@),
        }
    }
}

/// The step after `answered` questions of `request` were answered with
/// `answers`: the next question goes upstream, or, when none is left, the
/// reply goes out.
pub open spec fn next_step(
    request: MessageView,
    answered: nat,
    answers: Seq<AnswerView>,
) -> StepView {
    if answered < request.questions.len() {
        StepView::Forward {
            query: query_of(request, answered as int),
            resolver: ResolverView { request, answered, answers },
        }
    } else {
        StepView::Reply(reply_of(request, answers))
    }
}

/// The first step for `request`. With `forwarding` the questions go upstream
/// in order, starting with the first; without it the reply carries the fixed
/// answers and goes out at once.
pub open spec fn first_step(request: MessageView, forwarding: bool) -> StepView {
    if forwarding {
        next_step(request, 0, Seq::empty())
    } else {
        StepView::Reply(reply_of(request, local_answers_of(request)))
    }
}

impl ResolverView {
    /// The step after the upstream server sent `upstream` for the question
    /// that was out: its answers join those collected, in the order received.
    pub open spec fn resume(self, upstream: MessageView) -> StepView {
        next_step(self.request, self.answered + 1, self.answers + upstream.answers)
    }
}

/// Decides the step after `answered` questions were answered with `answers`.
fn proceed(request: DnsMessage, answered: usize, answers: Vec<DnsAnswer>) -> (step: Step)
    requires
        answers@.len() <= MAX_ANSWERS,
    ensures
        step@ == next_step(request@, answered as nat, answer_views(answers@)),
{
    if answered < request.questions.len() {
        let query = forward_query(&request, answered);
        Step::Forward { query, resolver: Resolver { request, answered, answers } }
    } else {
        Step::Reply(reply_to(request, answers))
    }
}

/// Takes up a request and says what is to be done first.
pub fn start(request: DnsMessage, forwarding: bool) -> (step: Step)
    ensures
        step@ == first_step(request@, forwarding),
{
    if forwarding {
        let answers: Vec<DnsAnswer> = Vec::new();
        assert(answer_views(answers@) =~= Seq::<AnswerView>::empty());
        proceed(request, 0, answers)
    } else {
        let answers = local_answers(&request);
        Step::Reply(reply_to(request, answers))
    }
}

impl Resolver {
    #[verifier::type_invariant]
    spec fn well_formed(self) -> bool {
        &&& self.answered < self.request.questions@.len()
        &&& self.answers@.len() <= MAX_ANSWERS
    }

    /// Whether the answers of `upstream` can join those collected without
    /// going over what a reply can count.
    pub fn has_room_for(&self, upstream: &DnsMessage) -> (fits: bool)
        ensures
            fits == (self@.answers.len() + upstream@.answers.len() <= MAX_ANSWERS),
    {
        proof {
            use_type_invariant(self);
        }
        upstream.answers.len() <= MAX_ANSWERS - self.answers.len()
    }

    /// Takes the upstream server's reply to the question that was out, and
    /// says what is to be done next.
    pub fn resume(self, upstream: DnsMessage) -> (step: Step)
        requires
            self@.answers.len() + upstream@.answers.len() <= MAX_ANSWERS,
        ensures
            step@ == self@.resume(upstream@),
    {
        proof {
            use_type_invariant(&self);
        }
        let answered = self.answered;
        let request = self.request;
        let mut answers = self.answers;
        assert(answered < request.questions.len());
        let mut received = upstream.answers;
        let ghost before = answers@;
        let ghost added = received@;
        answers.append(&mut received);
        assert(answer_views(before + added) =~= answer_views(before) + answer_views(added));
        proceed(request, answered + 1, answers)
    }
}

/// The answers of the upstream server's replies, in the order of the replies.
pub open spec fn collected(replies: Seq<MessageView>) -> Seq<AnswerView>
    decreases replies.len(),
{
    if replies.len() == 0 {
        Seq::empty()
    } else {
        replies[0].answers + collected(replies.drop_first())
    }
}

/// The step reached from `step` once the upstream server has sent `replies`,
/// one for each query in turn. A reply to the client ends the run.
pub open spec fn run(step: StepView, replies: Seq<MessageView>) -> StepView
    decreases replies.len(),
{
    if replies.len() == 0 {
        step
    } else {
        match step {
            StepView::Forward { resolver, .. } => run(
                resolver.resume(replies[0]),
                replies.drop_first(),
            ),
            StepView::Reply(_) => step,
        }
    }
}

/// A run that stands at question `answered` stands, `replies.len()` replies
/// later, that many questions further, with the answers of those replies
/// added in order.
proof fn lemma_run_from(
    request: MessageView,
    answered: nat,
    answers: Seq<AnswerView>,
    replies: Seq<MessageView>,
)
    requires
        answered + replies.len() <= request.questions.len(),
    ensures
        run(next_step(request, answered, answers), replies) == next_step(
            request,
            answered + replies.len(),
            answers + collected(replies),
        ),
    decreases replies.len(),
{
    if replies.len() == 0 {
        assert(answers + collected(replies) =~= answers);
    } else {
        lemma_run_from(
            request,
            answered + 1,
            answers + replies[0].answers,
            replies.drop_first(),
        );
        assert(answers + replies[0].answers + collected(replies.drop_first()) =~= answers
            + collected(replies));
    }
}

/// In forwarding mode the questions of a request go upstream one at a time and
/// in order: after `k` replies the query for question `k` is out, and after
/// as many replies as there are questions the reply to the client is due,
/// with all the upstream answers in the order received.
pub proof fn lemma_forwarding_run(request: MessageView, replies: Seq<MessageView>)
    requires
        replies.len() <= request.questions.len(),
    ensures
        run(first_step(request, true), replies) == next_step(
            request,
            replies.len(),
            collected(replies),
        ),
        replies.len() < request.questions.len() ==> (run(first_step(request, true), replies)
            matches StepView::Forward { query, .. } && query == query_of(
            request,
            replies.len() as int,
        )),
        replies.len() == request.questions.len() ==> run(first_step(request, true), replies)
            == StepView::Reply(reply_of(request, collected(replies))),
{
    lemma_run_from(request, 0, Seq::empty(), replies);
    assert(Seq::<AnswerView>::empty() + collected(replies) =~= collected(replies));
}

/// Every reply that a run reaches carries the questions of the request,
/// counts them as the request did, and answers a standard query with "no
/// error" and any other opcode with "not implemented".
proof fn lemma_reply_from(
    request: MessageView,
    answered: nat,
    answers: Seq<AnswerView>,
    replies: Seq<MessageView>,
)
    ensures
        run(next_step(request, answered, answers), replies) matches StepView::Reply(reply) ==> {
            &&& reply.header == reply_header_of(request.header, reply.answers.len() as u16)
            &&& reply.questions == request.questions
        },
    decreases replies.len(),
{
    if replies.len() > 0 && answered < request.questions.len() {
        lemma_reply_from(
            request,
            answered + 1,
            answers + replies[0].answers,
            replies.drop_first(),
        );
    }
}

/// Whatever the mode and whatever the upstream server sends, the reply to a
/// request answers opcode 0 with response code 0 and any other opcode with
/// response code 4, keeps id, opcode, recursion-desired and question count of
/// the request, and carries its questions.
pub proof fn lemma_reply_policy(request: MessageView, forwarding: bool, replies: Seq<MessageView>)
    ensures
        run(first_step(request, forwarding), replies) matches StepView::Reply(reply) ==> {
            &&& reply.header == reply_header_of(request.header, reply.answers.len() as u16)
            &&& reply.questions == request.questions
            &&& request.header.opcode == 0 ==> reply.header.rescode == 0
            &&& request.header.opcode != 0 ==> reply.header.rescode == 4
        },
{
    if forwarding {
        lemma_reply_from(request, 0, Seq::empty(), replies);
    } else {
        assert(local_answers_of(request).len() == request.header.questions);
    }
}

/// A query for the upstream server counts the one question it holds. A reply
/// counts what it holds where the request did and the answers are no more
/// than a header can count.
pub proof fn lemma_built_counts_match(request: MessageView, index: int, answers: Seq<AnswerView>)
    ensures
        query_of(request, index).counts_match(),
        request.header.questions == request.questions.len() && answers.len() <= MAX_ANSWERS
            ==> reply_of(request, answers).counts_match(),
{
}

} // verus!
