//! Whole messages: a header, then the questions, then the answers.

use vstd::prelude::*;
use crate::answer::{lemma_answer_round_trip, parse_answer, AnswerView, DnsAnswer};
use crate::error::{view_result, DecodeError};
use crate::header::{lemma_header_round_trip, lemma_parse_valid, DnsHeader, HEADER_LEN};
use crate::question::{lemma_question_round_trip, parse_question, DnsQuestion, QuestionView};
use crate::wire::push_all;

verus! {

/// A DNS message.
#[derive(Debug, Clone, PartialEq, Eq)]
pub struct DnsMessage {
    /// The header, with the counts as they go on the wire.
    pub header: DnsHeader,
    /// The question section.
    pub questions: Vec<DnsQuestion>,
    /// The answer section.
    pub answers: Vec<DnsAnswer>,
}

/// A message as a mathematical value.
pub struct MessageView {
    pub header: DnsHeader,
    pub questions: Seq<QuestionView>,
    pub answers: Seq<AnswerView>,
}

/// The questions of a section as mathematical values.
pub open spec fn question_views(questions: Seq<DnsQuestion>) -> Seq<QuestionView> {
    questions.map_values(|q: DnsQuestion| q@)
}

/// The records of a section as mathematical values.
pub open spec fn answer_views(answers: Seq<DnsAnswer>) -> Seq<AnswerView> {
    answers.map_values(|a: DnsAnswer| a@)
}

impl View for DnsMessage {
    type V = MessageView;

    open spec fn view(&self) -> MessageView {
        MessageView {
            header: self.header,
            questions: question_views(self.questions@),
            answers: answer_views(self.answers@),
        }
    }
}

/// Questions on the wire, one after the other.
pub open spec fn questions_wire(questions: Seq<QuestionView>) -> Seq<u8>
    decreases questions.len(),
{
    if questions.len() == 0 {
        Seq::empty()
    } else {
        questions[0].wire() + questions_wire(questions.drop_first())
    }
}

/// Records on the wire, one after the other.
pub open spec fn answers_wire(answers: Seq<AnswerView>) -> Seq<u8>
    decreases answers.len(),
{
    if answers.len() == 0 {
        Seq::empty()
    } else {
        answers[0].wire() + answers_wire(answers.drop_first())
    }
}

impl MessageView {
    /// The message on the wire: header, questions, answers. The counts in the
    /// header are written as they stand, whatever the sections hold.
    pub open spec fn wire(self) -> Seq<u8> {
        self.header.wire() + questions_wire(self.questions) + answers_wire(self.answers)
    }

    /// The header counts the questions and the answers that the sections hold.
    pub open spec fn counts_match(self) -> bool {
        &&& self.header.questions == self.questions.len()
        &&& self.header.answers == self.answers.len()
    }

    /// The messages that come back from the wire as they went: a valid header
    /// whose counts are the lengths of the sections, and valid entries.
    pub open spec fn valid(self) -> bool {
        &&& self.header.valid()
        &&& self.counts_match()
        &&& forall|i: int| 0 <= i < self.questions.len() ==> (#[trigger] self.questions[i]).valid()
        &&& forall|i: int| 0 <= i < self.answers.len() ==> (#[trigger] self.answers[i]).valid()
    }
}

/// `count` questions read one after the other, the first at offset `at` of
/// `bytes`, and the offset reached.
///
/// After a question the offset moves on by the length of that question's own
/// encoding. A question is looked for at an offset up to the end of `bytes`,
/// not beyond.
pub open spec fn parse_questions(bytes: Seq<u8>, at: int, count: nat) -> Result<
    (Seq<QuestionView>, int),
    DecodeError,
>
    decreases count,
{
    if count == 0 {
        Ok((Seq::empty(), at))
    } else if at > bytes.len() {
        Err(DecodeError::Truncated)
    } else {
        match parse_question(bytes.skip(at)) {
            Err(e) => Err(e),
            Ok(first) => match parse_questions(
                bytes,
                at + first.wire().len(),
                (count - 1) as nat,
            ) {
                Err(e) => Err(e),
                Ok((rest, end)) => Ok((seq![first] + rest, end)),
            },
        }
    }
}

/// `count` records read one after the other, the first at offset `at` of
/// `bytes`, and the offset reached.
///
/// After a record the offset moves on by the length of that record's own
/// encoding. A record is looked for at an offset up to the end of `bytes`,
/// not beyond.
pub open spec fn parse_answers(bytes: Seq<u8>, at: int, count: nat) -> Result<
    (Seq<AnswerView>, int),
    DecodeError,
>
    decreases count,
{
    if count == 0 {
        Ok((Seq::empty(), at))
    } else if at > bytes.len() {
        Err(DecodeError::Truncated)
    } else {
        match parse_answer(bytes.skip(at)) {
            Err(e) => Err(e),
            Ok(first) => match parse_answers(bytes, at + first.wire().len(), (count - 1) as nat) {
                Err(e) => Err(e),
                Ok((rest, end)) => Ok((seq![first] + rest, end)),
            },
        }
    }
}

/// The message that `bytes` hold: the header in the first twelve bytes, then
/// as many questions and as many answers as the header counts. Bytes after
/// the last answer are not looked at.
pub open spec fn parse_message(bytes: Seq<u8>) -> Result<MessageView, DecodeError> {
    if bytes.len() < 12 {
        Err(DecodeError::HeaderLength)
    } else {
        let header = DnsHeader::parse(bytes.take(12));
        match parse_questions(bytes, 12, header.questions as nat) {
            Err(e) => Err(e),
            Ok((questions, at)) => match parse_answers(bytes, at, header.answers as nat) {
                Err(e) => Err(e),
                Ok((answers, _)) => Ok(MessageView { header, questions, answers }),
            },
        }
    }
}

/// The outcome for a whole section, given that `done` was read already and
/// `tail` is the outcome for what is left.
spec fn after_questions(
    done: Seq<QuestionView>,
    tail: Result<(Seq<QuestionView>, int), DecodeError>,
) -> Result<(Seq<QuestionView>, int), DecodeError> {
    match tail {
        Ok((rest, end)) => Ok((done + rest, end)),
        Err(e) => Err(e),
    }
}

/// The outcome for a whole section, given that `done` was read already and
/// `tail` is the outcome for what is left.
spec fn after_answers(
    done: Seq<AnswerView>,
    tail: Result<(Seq<AnswerView>, int), DecodeError>,
) -> Result<(Seq<AnswerView>, int), DecodeError> {
    match tail {
        Ok((rest, end)) => Ok((done + rest, end)),
        Err(e) => Err(e),
    }
}

/// One question read moves the outcome of a section on by one.
proof fn lemma_questions_step(bytes: Seq<u8>, done: Seq<QuestionView>, at: int, left: nat)
    requires
        left > 0,
        0 <= at <= bytes.len(),
    ensures
        match parse_question(bytes.skip(at)) {
            Ok(first) => after_questions(done, parse_questions(bytes, at, left))
                == after_questions(
                done.push(first),
                parse_questions(bytes, at + first.wire().len(), (left - 1) as nat),
            ),
            Err(e) => parse_questions(bytes, at, left) == Err::<
                (Seq<QuestionView>, int),
                DecodeError,
            >(e),
        },
{
    match parse_question(bytes.skip(at)) {
        Ok(first) => {
            match parse_questions(bytes, at + first.wire().len(), (left - 1) as nat) {
                Ok((rest, end)) => {
                    assert(done + (seq![first] + rest) =~= done.push(first) + rest);
                },
                Err(_) => {},
            }
        },
        Err(_) => {},
    }
}

/// One record read moves the outcome of a section on by one.
proof fn lemma_answers_step(bytes: Seq<u8>, done: Seq<AnswerView>, at: int, left: nat)
    requires
        left > 0,
        0 <= at <= bytes.len(),
    ensures
        match parse_answer(bytes.skip(at)) {
            Ok(first) => after_answers(done, parse_answers(bytes, at, left)) == after_answers(
                done.push(first),
                parse_answers(bytes, at + first.wire().len(), (left - 1) as nat),
            ),
            Err(e) => parse_answers(bytes, at, left) == Err::<(Seq<AnswerView>, int), DecodeError>(
                e,
            ),
        },
{
    match parse_answer(bytes.skip(at)) {
        Ok(first) => {
            match parse_answers(bytes, at + first.wire().len(), (left - 1) as nat) {
                Ok((rest, end)) => {
                    assert(done + (seq![first] + rest) =~= done.push(first) + rest);
                },
                Err(_) => {},
            }
        },
        Err(_) => {},
    }
}

/// An offset into a buffer of `len` bytes as the decoder holds it: `None` once
/// it lies beyond the end.
spec fn cursor_at(cursor: Option<usize>, at: int, len: nat) -> bool {
    match cursor {
        Some(c) => c == at && at <= len,
        None => at > len,
    }
}

/// Moves a cursor on by `step` bytes.
fn advance(cursor: usize, step: usize, len: usize) -> (next: Option<usize>)
    requires
        cursor <= len,
    ensures
        cursor_at(next, cursor + step, len as nat),
{
    if step <= len - cursor {
        Some(cursor + step)
    } else {
        None
    }
}

/// Reads `count` questions, the first at `cursor`.
fn read_questions(
    bytes: &[u8],
    cursor: Option<usize>,
    Ghost(start): Ghost<int>,
    count: u16,
) -> (result: Result<(Vec<DnsQuestion>, Option<usize>), DecodeError>)
    requires
        cursor_at(cursor, start, bytes@.len()),
        0 <= start,
    ensures
        match parse_questions(bytes@, start, count as nat) {
            Ok((questions, end)) => result matches Ok((read, next)) && question_views(read@)
                == questions && cursor_at(next, end, bytes@.len()) && 0 <= end,
            Err(e) => result == Err::<(Vec<DnsQuestion>, Option<usize>), DecodeError>(e),
        },
{
    let mut questions: Vec<DnsQuestion> = Vec::new();
    let mut cursor = cursor;
    let ghost mut at = start;
    let mut k: u16 = 0;
    assert(question_views(questions@) + Seq::<QuestionView>::empty() =~= question_views(
        questions@,
    ));
    while k < count
        invariant
            k <= count,
            0 <= at,
            cursor_at(cursor, at, bytes@.len()),
            parse_questions(bytes@, start, count as nat) == after_questions(
                question_views(questions@),
                parse_questions(bytes@, at, (count - k) as nat),
            ),
        decreases count - k,
    {
        let i = match cursor {
            Some(i) => i,
            None => {
                return Err(DecodeError::Truncated);
            },
        };
        proof {
            lemma_questions_step(bytes@, question_views(questions@), at, (count - k) as nat);
            assert(bytes@.subrange(i as int, bytes@.len() as int) =~= bytes@.skip(i as int));
        }
        let question = match DnsQuestion::try_from_bytes(&bytes[i..bytes.len()]) {
            Ok(question) => question,
            Err(e) => {
                return Err(e);
            },
        };
        let encoded = question.to_bytes();
        cursor = advance(i, encoded.len(), bytes.len());
        proof {
            assert(question_views(questions@.push(question)) =~= question_views(questions@).push(
                question@,
            ));
            at = at + encoded@.len();
        }
        questions.push(question);
        k += 1;
    }
    Ok((questions, cursor))
}

/// Reads `count` records, the first at `cursor`.
fn read_answers(
    bytes: &[u8],
    cursor: Option<usize>,
    Ghost(start): Ghost<int>,
    count: u16,
) -> (result: Result<(Vec<DnsAnswer>, Option<usize>), DecodeError>)
    requires
        cursor_at(cursor, start, bytes@.len()),
        0 <= start,
    ensures
        match parse_answers(bytes@, start, count as nat) {
            Ok((answers, end)) => result matches Ok((read, next)) && answer_views(read@) == answers
                && cursor_at(next, end, bytes@.len()) && 0 <= end,
            Err(e) => result == Err::<(Vec<DnsAnswer>, Option<usize>), DecodeError>(e),
        },
{
    let mut answers: Vec<DnsAnswer> = Vec::new();
    let mut cursor = cursor;
    let ghost mut at = start;
    let mut k: u16 = 0;
    assert(answer_views(answers@) + Seq::<AnswerView>::empty() =~= answer_views(answers@));
    while k < count
        invariant
            k <= count,
            0 <= at,
            cursor_at(cursor, at, bytes@.len()),
            parse_answers(bytes@, start, count as nat) == after_answers(
                answer_views(answers@),
                parse_answers(bytes@, at, (count - k) as nat),
            ),
        decreases count - k,
    {
        let i = match cursor {
            Some(i) => i,
            None => {
                return Err(DecodeError::Truncated);
            },
        };
        proof {
            lemma_answers_step(bytes@, answer_views(answers@), at, (count - k) as nat);
            assert(bytes@.subrange(i as int, bytes@.len() as int) =~= bytes@.skip(i as int));
        }
        let answer = match DnsAnswer::try_from_bytes(&bytes[i..bytes.len()]) {
            Ok(answer) => answer,
            Err(e) => {
                return Err(e);
            },
        };
        let encoded = answer.to_bytes();
        cursor = advance(i, encoded.len(), bytes.len());
        proof {
            assert(answer_views(answers@.push(answer)) =~= answer_views(answers@).push(answer@));
            at = at + encoded@.len();
        }
        answers.push(answer);
        k += 1;
    }
    Ok((answers, cursor))
}

/// What `questions_wire` makes of one more question at the end.
pub proof fn lemma_questions_wire_push(questions: Seq<QuestionView>, last: QuestionView)
    ensures
        questions_wire(questions.push(last)) == questions_wire(questions) + last.wire(),
    decreases questions.len(),
{
    let all = questions.push(last);
    if questions.len() == 0 {
        assert(all.drop_first() =~= Seq::<QuestionView>::empty());
        assert(questions_wire(Seq::<QuestionView>::empty()) =~= Seq::<u8>::empty());
        assert(questions_wire(all) =~= last.wire());
    } else {
        assert(all.drop_first() =~= questions.drop_first().push(last));
        lemma_questions_wire_push(questions.drop_first(), last);
        assert(questions_wire(all) =~= questions_wire(questions) + last.wire());
    }
}

/// What `answers_wire` makes of one more record at the end.
pub proof fn lemma_answers_wire_push(answers: Seq<AnswerView>, last: AnswerView)
    ensures
        answers_wire(answers.push(last)) == answers_wire(answers) + last.wire(),
    decreases answers.len(),
{
    let all = answers.push(last);
    if answers.len() == 0 {
        assert(all.drop_first() =~= Seq::<AnswerView>::empty());
        assert(answers_wire(Seq::<AnswerView>::empty()) =~= Seq::<u8>::empty());
        assert(answers_wire(all) =~= last.wire());
    } else {
        assert(all.drop_first() =~= answers.drop_first().push(last));
        lemma_answers_wire_push(answers.drop_first(), last);
        assert(answers_wire(all) =~= answers_wire(answers) + last.wire());
    }
}

impl DnsMessage {
    /// Serialises the message: the header, each question in order, each answer
    /// in order. The counts in the header are not checked against the sections.
    pub fn to_bytes(&self) -> (bytes: Vec<u8>)
        ensures
            bytes@ == self@.wire(),
    {
        let mut bytes: Vec<u8> = Vec::new();
        let header_bytes = self.header.to_bytes();
        push_all(&mut bytes, header_bytes.as_slice());
        let mut i: usize = 0;
        assert(self@.questions.take(0) =~= Seq::<QuestionView>::empty());
        while i < self.questions.len()
            invariant
                i <= self.questions@.len(),
                bytes@ == self.header.wire() + questions_wire(self@.questions.take(i as int)),
            decreases self.questions@.len() - i,
        {
            let encoded = self.questions[i].to_bytes();
            push_all(&mut bytes, encoded.as_slice());
            proof {
                lemma_questions_wire_push(self@.questions.take(i as int), self.questions@[i as int]@);
                assert(self@.questions.take(i + 1) =~= self@.questions.take(i as int).push(
                    self.questions@[i as int]@,
                ));
            }
            i += 1;
        }
        assert(self@.questions.take(i as int) =~= self@.questions);
        let mut j: usize = 0;
        assert(self@.answers.take(0) =~= Seq::<AnswerView>::empty());
        while j < self.answers.len()
            invariant
                j <= self.answers@.len(),
                bytes@ == self.header.wire() + questions_wire(self@.questions) + answers_wire(
                    self@.answers.take(j as int),
                ),
            decreases self.answers@.len() - j,
        {
            let encoded = self.answers[j].to_bytes();
            push_all(&mut bytes, encoded.as_slice());
            proof {
                lemma_answers_wire_push(self@.answers.take(j as int), self.answers@[j as int]@);
                assert(self@.answers.take(j + 1) =~= self@.answers.take(j as int).push(
                    self.answers@[j as int]@,
                ));
            }
            j += 1;
        }
        assert(self@.answers.take(j as int) =~= self@.answers);
        bytes
    }

    /// Reads the message that `bytes` hold, or says why they hold none.
    pub fn try_from_bytes(bytes: &[u8]) -> (result: Result<DnsMessage, DecodeError>)
        ensures
            view_result(result) == parse_message(bytes@),
    {
        if bytes.len() < HEADER_LEN {
            return Err(DecodeError::HeaderLength);
        }
        let header = DnsHeader::from_bytes(&bytes[0..HEADER_LEN]);
        assert(bytes@.subrange(0, 12) =~= bytes@.take(12));
        let (questions, cursor) = match read_questions(
            bytes,
            Some(HEADER_LEN),
            Ghost(12),
            header.questions,
        ) {
            Ok(read) => read,
            Err(e) => {
                return Err(e);
            },
        };
        let ghost at = parse_questions(bytes@, 12, header.questions as nat)->Ok_0.1;
        let (answers, _) = match read_answers(bytes, cursor, Ghost(at), header.answers) {
            Ok(read) => read,
            Err(e) => {
                return Err(e);
            },
        };
        Ok(DnsMessage { header, questions, answers })
    }

    /// Reads the message that `bytes` hold; they must hold one.
    pub fn from_bytes(bytes: &[u8]) -> (message: DnsMessage)
        requires
            parse_message(bytes@) is Ok,
        ensures
            parse_message(bytes@) == Ok::<MessageView, DecodeError>(message@),
    {
        DnsMessage::try_from_bytes(bytes).unwrap()
    }
}

/// A section that was read holds as many questions as were asked for.
proof fn lemma_parse_questions_len(bytes: Seq<u8>, at: int, count: nat)
    ensures
        parse_questions(bytes, at, count) matches Ok((questions, _)) ==> questions.len() == count,
    decreases count,
{
    if count > 0 && at <= bytes.len() {
        match parse_question(bytes.skip(at)) {
            Ok(first) => {
                lemma_parse_questions_len(bytes, at + first.wire().len(), (count - 1) as nat);
            },
            Err(_) => {},
        }
    }
}

/// A section that was read holds as many records as were asked for.
proof fn lemma_parse_answers_len(bytes: Seq<u8>, at: int, count: nat)
    ensures
        parse_answers(bytes, at, count) matches Ok((answers, _)) ==> answers.len() == count,
    decreases count,
{
    if count > 0 && at <= bytes.len() {
        match parse_answer(bytes.skip(at)) {
            Ok(first) => {
                lemma_parse_answers_len(bytes, at + first.wire().len(), (count - 1) as nat);
            },
            Err(_) => {},
        }
    }
}

/// A message that was read has a valid header, and the header counts what the
/// sections hold.
pub proof fn lemma_parsed_counts_match(bytes: Seq<u8>)
    ensures
        parse_message(bytes) matches Ok(message) ==> message.counts_match()
            && message.header.valid(),
{
    if bytes.len() >= 12 {
        let header = DnsHeader::parse(bytes.take(12));
        lemma_parse_valid(bytes.take(12));
        lemma_parse_questions_len(bytes, 12, header.questions as nat);
        match parse_questions(bytes, 12, header.questions as nat) {
            Ok((_, at)) => {
                lemma_parse_answers_len(bytes, at, header.answers as nat);
            },
            Err(_) => {},
        }
    }
}

/// How a buffer that holds a record and more after `prefix` reads from the
/// record on, and how it reads with the record counted to the prefix.
proof fn lemma_framing(prefix: Seq<u8>, first: Seq<u8>, more: Seq<u8>, rest: Seq<u8>)
    ensures
        (prefix + (first + more) + rest).skip(prefix.len() as int) == first + (more + rest),
        prefix + (first + more) + rest == (prefix + first) + more + rest,
{
    assert((prefix + (first + more) + rest).skip(prefix.len() as int) =~= first + (more + rest));
    assert(prefix + (first + more) + rest =~= (prefix + first) + more + rest);
}

/// Valid questions are read back from their encodings as they are, wherever
/// in a buffer these stand.
pub proof fn lemma_questions_round_trip(
    prefix: Seq<u8>,
    questions: Seq<QuestionView>,
    rest: Seq<u8>,
)
    requires
        forall|i: int| 0 <= i < questions.len() ==> (#[trigger] questions[i]).valid(),
    ensures
        parse_questions(
            prefix + questions_wire(questions) + rest,
            prefix.len() as int,
            questions.len(),
        ) == Ok::<(Seq<QuestionView>, int), DecodeError>(
            (questions, (prefix.len() + questions_wire(questions).len()) as int),
        ),
    decreases questions.len(),
{
    let bytes = prefix + questions_wire(questions) + rest;
    if questions.len() == 0 {
        assert(questions =~= Seq::empty());
    } else {
        let first = questions[0];
        let more = questions.drop_first();
        lemma_framing(prefix, first.wire(), questions_wire(more), rest);
        lemma_question_round_trip(first, questions_wire(more) + rest);
        assert forall|i: int| 0 <= i < more.len() implies (#[trigger] more[i]).valid() by {
            assert(more[i] == questions[i + 1]);
        }
        lemma_questions_round_trip(prefix + first.wire(), more, rest);
        assert(seq![first] + more =~= questions);
    }
}

/// Valid records are read back from their encodings as they are, wherever in
/// a buffer these stand.
pub proof fn lemma_answers_round_trip(prefix: Seq<u8>, answers: Seq<AnswerView>, rest: Seq<u8>)
    requires
        forall|i: int| 0 <= i < answers.len() ==> (#[trigger] answers[i]).valid(),
    ensures
        parse_answers(prefix + answers_wire(answers) + rest, prefix.len() as int, answers.len())
            == Ok::<(Seq<AnswerView>, int), DecodeError>(
            (answers, (prefix.len() + answers_wire(answers).len()) as int),
        ),
    decreases answers.len(),
{
    let bytes = prefix + answers_wire(answers) + rest;
    if answers.len() == 0 {
        assert(answers =~= Seq::empty());
    } else {
        let first = answers[0];
        let more = answers.drop_first();
        lemma_framing(prefix, first.wire(), answers_wire(more), rest);
        lemma_answer_round_trip(first, answers_wire(more) + rest);
        assert forall|i: int| 0 <= i < more.len() implies (#[trigger] more[i]).valid() by {
            assert(more[i] == answers[i + 1]);
        }
        lemma_answers_round_trip(prefix + first.wire(), more, rest);
        assert(seq![first] + more =~= answers);
    }
}

/// Decoding the encoding of a valid message gives the message back, whatever
/// follows the encoding.
pub proof fn lemma_message_round_trip(message: MessageView, rest: Seq<u8>)
    requires
        message.valid(),
    ensures
        parse_message(message.wire() + rest) == Ok::<MessageView, DecodeError>(message),
{
    let head = message.header.wire();
    let questions = questions_wire(message.questions);
    let answers = answers_wire(message.answers);
    let bytes = message.wire() + rest;
    lemma_header_round_trip(message.header);
    assert(bytes.take(12) =~= head);
    lemma_questions_round_trip(head, message.questions, answers + rest);
    assert(bytes =~= head + questions + (answers + rest));
    lemma_answers_round_trip(head + questions, message.answers, rest);
    assert(bytes =~= (head + questions) + answers + rest);
}

} // verus!
