//! Domain names on the wire: a run of length-prefixed labels closed by a zero byte.

use vstd::prelude::*;
use vstd::string::StringExecFns;
use vstd::utf8::{decode_utf8, encode_utf8, valid_utf8};
use crate::error::DecodeError;
use crate::split::{
    join, lemma_join_front, lemma_join_push, lemma_join_split, lemma_run_len_bounds,
    lemma_run_len_prefix, lemma_run_len_skip_prefix, lemma_split_nonempty, lemma_split_pieces,
    run_len, split,
};
use crate::utf8::{lemma_encode_char, lemma_encode_concat, DOT};
use crate::wire::push_all;

verus! {

/// The labels of a dotted name as the bytes that go on the wire.
pub open spec fn raw_labels(name: Seq<char>) -> Seq<Seq<u8>> {
    split(name, '.').map_values(|label: Seq<char>| encode_utf8(label))
}

/// One label on the wire: its length in one byte, then its bytes. A length
/// above 255 keeps its low eight bits only.
pub open spec fn label_wire(raw: Seq<u8>) -> Seq<u8> {
    seq![(raw.len() % 256) as u8] + raw
}

/// Labels on the wire one after the other, then the closing zero byte.
pub open spec fn labels_wire(labels: Seq<Seq<u8>>) -> Seq<u8>
    decreases labels.len(),
{
    if labels.len() == 0 {
        seq![0u8]
    } else {
        label_wire(labels[0]) + labels_wire(labels.drop_first())
    }
}

/// A dotted name on the wire.
pub open spec fn name_wire(name: Seq<char>) -> Seq<u8> {
    labels_wire(raw_labels(name))
}

/// The labels that open `bytes`, up to and including the closing zero byte, and
/// how many bytes they take.
///
/// A length byte is followed by that many bytes of label, which must be valid
/// UTF-8; a length byte of zero closes the name. A length byte with its two
/// high bits set is a length like any other.
pub open spec fn parse_labels(bytes: Seq<u8>) -> Result<(Seq<Seq<u8>>, int), DecodeError>
    decreases bytes.len(),
{
    if bytes.len() == 0 {
        Err(DecodeError::UnterminatedName)
    } else {
        let n = bytes[0] as int;
        if n == 0 {
            Ok((Seq::empty(), 1))
        } else if bytes.len() < 1 + n {
            Err(DecodeError::UnterminatedName)
        } else if !valid_utf8(bytes.subrange(1, 1 + n)) {
            Err(DecodeError::InvalidUtf8)
        } else {
            match parse_labels(bytes.skip(1 + n)) {
                Ok((rest, used)) => Ok((seq![bytes.subrange(1, 1 + n)] + rest, 1 + n + used)),
                Err(e) => Err(e),
            }
        }
    }
}

/// Labels as text, set out with dots between them.
pub open spec fn dotted(labels: Seq<Seq<u8>>) -> Seq<char> {
    join(labels.map_values(|raw: Seq<u8>| decode_utf8(raw)), '.')
}

/// The dotted name that opens `bytes`, and how many bytes it takes, the
/// closing zero byte included.
pub open spec fn parse_name(bytes: Seq<u8>) -> Result<(Seq<char>, int), DecodeError> {
    match parse_labels(bytes) {
        Ok((labels, used)) => Ok((dotted(labels), used)),
        Err(e) => Err(e),
    }
}

/// Every label takes between 1 and 255 bytes: the names that come back from
/// the wire as they went.
pub open spec fn name_fits(name: Seq<char>) -> bool {
    forall|i: int|
        0 <= i < raw_labels(name).len() ==> 1 <= (#[trigger] raw_labels(name)[i]).len() <= 255
}

/// Writes one label: its length byte, then `raw[start..end]`.
fn push_label(out: &mut Vec<u8>, raw: &[u8], start: usize, end: usize)
    requires
        start <= end <= raw@.len(),
    ensures
        final(out)@ == old(out)@ + label_wire(raw@.subrange(start as int, end as int)),
{
    out.push(((end - start) % 256) as u8);
    let label = &raw[start..end];
    push_all(out, label);
}

/// What `labels_wire` makes of a first label followed by more.
proof fn lemma_labels_wire_cons(first: Seq<u8>, rest: Seq<Seq<u8>>)
    ensures
        labels_wire(seq![first] + rest) == label_wire(first) + labels_wire(rest),
{
    let all = seq![first] + rest;
    assert(all.drop_first() =~= rest);
}

/// Encodes the raw bytes of a dotted name label by label.
fn write_raw_name(raw: &[u8]) -> (bytes: Vec<u8>)
    ensures
        bytes@ == labels_wire(split(raw@, DOT)),
{
    let mut bytes: Vec<u8> = Vec::new();
    let mut start: usize = 0;
    let mut end: usize = 0;
    assert(raw@.skip(0) =~= raw@);
    while end < raw.len()
        invariant
            start <= end <= raw@.len(),
            forall|k: int| start <= k < end ==> raw@[k] != DOT,
            labels_wire(split(raw@, DOT)) == bytes@ + labels_wire(
                split(raw@.skip(start as int), DOT),
            ),
        decreases raw@.len() - end,
    {
        if raw[end] == DOT {
            proof {
                let tail = raw@.skip(start as int);
                lemma_run_len_prefix(tail, DOT, end - start);
                assert(tail.take(end - start) =~= raw@.subrange(start as int, end as int));
                assert(tail.skip(end - start + 1) =~= raw@.skip(end + 1));
                lemma_labels_wire_cons(
                    raw@.subrange(start as int, end as int),
                    split(raw@.skip(end + 1), DOT),
                );
            }
            push_label(&mut bytes, raw, start, end);
            start = end + 1;
        }
        end += 1;
    }
    proof {
        let tail = raw@.skip(start as int);
        lemma_run_len_prefix(tail, DOT, end - start);
        assert(tail =~= raw@.subrange(start as int, end as int));
        assert(split(tail, DOT) == seq![tail]);
        lemma_labels_wire_cons(tail, Seq::empty());
        assert(seq![tail] + Seq::<Seq<u8>>::empty() =~= seq![tail]);
    }
    push_label(&mut bytes, raw, start, end);
    bytes.push(0);
    bytes
}

/// The first `DOT` byte of an encoding stands where the first dot of the string
/// is encoded.
proof fn lemma_run_len_encode(s: Seq<char>)
    ensures
        run_len(encode_utf8(s), DOT) == encode_utf8(s.take(run_len(s, '.') as int)).len(),
    decreases s.len(),
{
    if s.len() == 0 {
        assert(s.take(0) =~= s);
    } else {
        let head = seq![s[0]];
        let rest = s.drop_first();
        assert(s =~= head + rest);
        lemma_encode_concat(head, rest);
        lemma_encode_char(s[0]);
        if s[0] == '.' {
            assert(s.take(0) =~= Seq::<char>::empty());
        } else {
            lemma_run_len_encode(rest);
            lemma_run_len_skip_prefix(encode_utf8(head), encode_utf8(rest), DOT);
            let n = run_len(rest, '.');
            lemma_run_len_bounds(rest, '.');
            assert(s.take(n as int + 1) =~= head + rest.take(n as int));
            lemma_encode_concat(head, rest.take(n as int));
        }
    }
}

/// Splitting the encoding of a name at the byte `DOT` gives the encodings of
/// the labels that the dots of the name mark off.
pub proof fn lemma_split_encode(name: Seq<char>)
    ensures
        split(encode_utf8(name), DOT) == raw_labels(name),
    decreases name.len(),
{
    let raw = encode_utf8(name);
    let n = run_len(name, '.');
    let m = run_len(raw, DOT);
    lemma_run_len_bounds(name, '.');
    lemma_run_len_encode(name);
    if n >= name.len() {
        assert(name.take(n as int) =~= name);
        assert(split(name, '.') =~= seq![name]);
        assert(raw_labels(name) =~= seq![raw]);
    } else {
        let first = name.take(n as int);
        let rest = name.skip(n as int + 1);
        assert(name =~= first + (seq!['.'] + rest));
        lemma_encode_concat(first, seq!['.'] + rest);
        lemma_encode_concat(seq!['.'], rest);
        lemma_encode_char('.');
        assert(raw =~= encode_utf8(first) + (seq![DOT] + encode_utf8(rest)));
        assert(raw.take(m as int) =~= encode_utf8(first));
        assert(raw.skip(m as int + 1) =~= encode_utf8(rest));
        lemma_split_encode(rest);
        assert(split(name, '.') =~= seq![first] + split(rest, '.'));
        assert(raw_labels(name) =~= seq![encode_utf8(first)] + raw_labels(rest));
    }
}

/// Encodes a dotted name: each label between dots as its length in one byte
/// and then its bytes, and a zero byte to close.
pub fn write_name(name: &str) -> (bytes: Vec<u8>)
    ensures
        bytes@ == name_wire(name@),
{
    proof {
        lemma_split_encode(name@);
    }
    write_raw_name(name.as_bytes())
}

/// The outcome for the whole buffer, given that `done` was read from its first
/// `at` bytes and `tail` is the outcome for the rest.
spec fn after_labels(
    done: Seq<Seq<u8>>,
    at: int,
    tail: Result<(Seq<Seq<u8>>, int), DecodeError>,
) -> Result<(Seq<Seq<u8>>, int), DecodeError> {
    match tail {
        Ok((rest, used)) => Ok((done + rest, at + used)),
        Err(e) => Err(e),
    }
}

/// Reads a name from the front of `bytes`. On success the result holds the
/// dotted name and the number of bytes read, the closing zero byte included.
pub fn try_read_name(bytes: &[u8]) -> (result: Result<(String, usize), DecodeError>)
    ensures
        match parse_name(bytes@) {
            Ok((name, used)) => result matches Ok((s, n)) && s@ == name && n == used,
            Err(e) => result == Err::<(String, usize), DecodeError>(e),
        },
        result matches Ok((_, n)) ==> 1 <= n <= bytes@.len(),
{
    let mut name = String::new();
    let mut i: usize = 0;
    let ghost mut done: Seq<Seq<u8>> = Seq::empty();
    assert(bytes@.skip(0) =~= bytes@);
    loop
        invariant
            i <= bytes@.len(),
            name@ == dotted(done),
            (i == 0) == (done.len() == 0),
            parse_labels(bytes@) == after_labels(
                done,
                i as int,
                parse_labels(bytes@.skip(i as int)),
            ),
        decreases bytes@.len() - i,
    {
        if i >= bytes.len() {
            return Err(DecodeError::UnterminatedName);
        }
        let label_len = bytes[i] as usize;
        if label_len == 0 {
            return Ok((name, i + 1));
        }
        if label_len > bytes.len() - i - 1 {
            return Err(DecodeError::UnterminatedName);
        }
        let label = &bytes[i + 1..i + 1 + label_len];
        let ghost tail = bytes@.skip(i as int);
        assert(tail.subrange(1, 1 + label_len) =~= label@);
        assert(tail.skip(1 + label_len) =~= bytes@.skip(i + 1 + label_len));
        match core::str::from_utf8(label) {
            Ok(text) => {
                if i != 0 {
                    proof {
                        reveal_strlit(".");
                    }
                    name.append(".");
                }
                name.append(text);
                proof {
                    vstd::utf8::encode_utf8_decode_utf8(text@);
                }
            },
            Err(_) => {
                return Err(DecodeError::InvalidUtf8);
            },
        }
        proof {
            let texts = done.map_values(|raw: Seq<u8>| decode_utf8(raw));
            lemma_join_push(texts, decode_utf8(label@), '.');
            assert(done.push(label@).map_values(|raw: Seq<u8>| decode_utf8(raw)) =~= texts.push(
                decode_utf8(label@),
            ));
            reveal_strlit(".");
            assert("."@ =~= seq!['.']);
            match parse_labels(bytes@.skip(i + 1 + label_len)) {
                Ok((rest, used)) => {
                    assert(done + (seq![label@] + rest) =~= done.push(label@) + rest);
                },
                Err(_) => {},
            }
            done = done.push(label@);
        }
        i += label_len + 1;
    }
}

/// Reads a name from the front of `bytes`, which must open with a well-formed
/// one. Returns the dotted name and the number of bytes read, the closing zero
/// byte included.
pub fn read_name(bytes: &[u8]) -> (result: (String, usize))
    requires
        parse_name(bytes@) is Ok,
    ensures
        parse_name(bytes@) == Ok::<(Seq<char>, int), DecodeError>(
            (result.0@, result.1 as int),
        ),
        1 <= result.1 <= bytes@.len(),
{
    try_read_name(bytes).unwrap()
}

/// A name that was read lies within the buffer and takes at least its closing byte.
pub proof fn lemma_parse_name_bounds(bytes: Seq<u8>)
    ensures
        parse_labels(bytes) matches Ok((_, used)) ==> 1 <= used <= bytes.len(),
        parse_name(bytes) matches Ok((_, used)) ==> 1 <= used <= bytes.len(),
    decreases bytes.len(),
{
    if bytes.len() > 0 {
        let n = bytes[0] as int;
        if n != 0 && bytes.len() >= 1 + n {
            lemma_parse_name_bounds(bytes.skip(1 + n));
        }
    }
}

/// A name on the wire is two bytes longer than the name as text: every dot
/// gives way to a length byte, and a length byte and the closing byte come on
/// top.
pub proof fn lemma_name_wire_len(name: Seq<char>)
    ensures
        name_wire(name).len() == encode_utf8(name).len() + 2,
{
    lemma_split_encode(name);
    lemma_raw_wire_len(encode_utf8(name));
}

/// The labels between the `DOT` bytes of `raw` take two bytes more on the
/// wire than `raw` is long.
proof fn lemma_raw_wire_len(raw: Seq<u8>)
    ensures
        labels_wire(split(raw, DOT)).len() == raw.len() + 2,
    decreases raw.len(),
{
    let n = run_len(raw, DOT);
    lemma_run_len_bounds(raw, DOT);
    if n >= raw.len() {
        lemma_labels_wire_cons(raw, Seq::empty());
        assert(seq![raw] + Seq::<Seq<u8>>::empty() =~= seq![raw]);
    } else {
        let rest = raw.skip(n as int + 1);
        lemma_raw_wire_len(rest);
        lemma_labels_wire_cons(raw.take(n as int), split(rest, DOT));
    }
}

/// A name that was read is as long on the wire as what was read of the
/// buffer, but for the empty name, which is read from the closing byte alone
/// and written with an empty label before it.
pub proof fn lemma_read_name_wire_len(bytes: Seq<u8>)
    ensures
        parse_name(bytes) matches Ok((name, used)) ==> name_wire(name).len() == if name.len()
            == 0 {
            used + 1
        } else {
            used
        },
{
    lemma_parsed_labels(bytes);
    match parse_labels(bytes) {
        Ok((labels, used)) => {
            let name = dotted(labels);
            lemma_name_wire_len(name);
            lemma_encode_dotted(labels);
            if labels.len() > 0 {
                lemma_join_front(labels, DOT);
                assert(encode_utf8(name).len() > 0);
                assert(name.len() > 0);
            } else {
                assert(name =~= Seq::<char>::empty());
                assert(encode_utf8(name) =~= Seq::<u8>::empty());
            }
        },
        Err(_) => {},
    }
}

/// The empty name is written as an empty label and the closing byte.
pub proof fn lemma_empty_name_wire()
    ensures
        name_wire(Seq::empty()) == seq![0u8, 0u8],
{
    let name = Seq::<char>::empty();
    let labels = raw_labels(name);
    assert(split(name, '.') =~= seq![name]);
    assert(labels =~= seq![Seq::<u8>::empty()]);
    assert(labels.drop_first() =~= Seq::<Seq<u8>>::empty());
    assert(labels_wire(labels.drop_first()) =~= seq![0u8]);
    assert(label_wire(labels[0]) =~= seq![0u8]);
    assert(name_wire(name) =~= seq![0u8, 0u8]);
}

/// Labels of 1 to 255 bytes of valid UTF-8 are read back from their wire form
/// as they are, whatever follows it.
pub proof fn lemma_parse_labels_wire(labels: Seq<Seq<u8>>, rest: Seq<u8>)
    requires
        forall|i: int|
            0 <= i < labels.len() ==> 1 <= (#[trigger] labels[i]).len() <= 255 && valid_utf8(
                labels[i],
            ),
    ensures
        parse_labels(labels_wire(labels) + rest) == Ok::<(Seq<Seq<u8>>, int), DecodeError>(
            (labels, labels_wire(labels).len() as int),
        ),
    decreases labels.len(),
{
    let bytes = labels_wire(labels) + rest;
    if labels.len() == 0 {
        assert(labels =~= Seq::empty());
        assert(bytes[0] == 0);
    } else {
        let first = labels[0];
        let more = labels.drop_first();
        let n = first.len() as int;
        assert(bytes[0] == n as u8);
        assert(bytes.subrange(1, 1 + n) =~= first);
        assert(bytes.skip(1 + n) =~= labels_wire(more) + rest);
        assert forall|i: int| 0 <= i < more.len() implies 1 <= (#[trigger] more[i]).len() <= 255
            && valid_utf8(more[i]) by {
            assert(more[i] == labels[i + 1]);
        }
        lemma_parse_labels_wire(more, rest);
        assert(seq![first] + more =~= labels);
    }
}

/// A name that fits is read back from its wire form as it is, with every byte
/// of that form used, whatever follows it.
proof fn lemma_fit_name(name: Seq<char>, rest: Seq<u8>)
    requires
        name_fits(name),
    ensures
        parse_name(name_wire(name) + rest) == Ok::<(Seq<char>, int), DecodeError>(
            (name, name_wire(name).len() as int),
        ),
{
    let labels = split(name, '.');
    let raw = raw_labels(name);
    assert forall|i: int| 0 <= i < raw.len() implies 1 <= (#[trigger] raw[i]).len() <= 255
        && valid_utf8(raw[i]) by {
        vstd::utf8::encode_utf8_valid_utf8(labels[i]);
    }
    lemma_parse_labels_wire(raw, rest);
    assert(raw.map_values(|r: Seq<u8>| decode_utf8(r)) =~= labels) by {
        assert forall|i: int| 0 <= i < labels.len() implies decode_utf8(raw[i]) == labels[i] by {
            vstd::utf8::encode_utf8_decode_utf8(labels[i]);
        }
    }
    lemma_join_split(name, '.');
}

/// The labels that a decoder accepts are valid UTF-8 and not empty, and they
/// and the bytes between them make up what was read.
proof fn lemma_parsed_labels(bytes: Seq<u8>)
    ensures
        parse_labels(bytes) matches Ok((labels, used)) ==> {
            &&& forall|i: int|
                0 <= i < labels.len() ==> valid_utf8(#[trigger] labels[i]) && labels[i].len() >= 1
            &&& labels.len() == 0 ==> used == 1
            &&& labels.len() > 0 ==> used == join(labels, DOT).len() + 2
        },
    decreases bytes.len(),
{
    if bytes.len() > 0 {
        let n = bytes[0] as int;
        if n != 0 && bytes.len() >= 1 + n && valid_utf8(bytes.subrange(1, 1 + n)) {
            lemma_parsed_labels(bytes.skip(1 + n));
            match parse_labels(bytes.skip(1 + n)) {
                Ok((rest, _)) => {
                    let labels = seq![bytes.subrange(1, 1 + n)] + rest;
                    assert forall|i: int| 0 <= i < labels.len() implies valid_utf8(
                        #[trigger] labels[i],
                    ) && labels[i].len() >= 1 by {
                        if i > 0 {
                            assert(labels[i] == rest[i - 1]);
                        }
                    }
                    assert(labels.drop_first() =~= rest);
                    lemma_join_front(labels, DOT);
                },
                Err(_) => {},
            }
        }
    }
}

/// The dotted text of valid labels is encoded by the labels with `DOT`
/// between them.
proof fn lemma_encode_dotted(labels: Seq<Seq<u8>>)
    requires
        forall|i: int| 0 <= i < labels.len() ==> valid_utf8(#[trigger] labels[i]),
    ensures
        encode_utf8(dotted(labels)) == join(labels, DOT),
    decreases labels.len(),
{
    let texts = labels.map_values(|raw: Seq<u8>| decode_utf8(raw));
    if labels.len() == 0 {
    } else {
        vstd::utf8::decode_utf8_encode_utf8(labels[0]);
        if labels.len() > 1 {
            let more = labels.drop_first();
            assert(texts.drop_first() =~= more.map_values(|raw: Seq<u8>| decode_utf8(raw)));
            assert forall|i: int| 0 <= i < more.len() implies valid_utf8(#[trigger] more[i]) by {
                assert(more[i] == labels[i + 1]);
            }
            lemma_encode_dotted(more);
            lemma_encode_char('.');
            lemma_encode_concat(texts[0] + seq!['.'], dotted(more));
            lemma_encode_concat(texts[0], seq!['.']);
        }
    }
}

/// Where a label does not fit, what is read back from the wire form of the
/// labels is not what went: the one exception is a single empty label, which
/// is read back as no label at all.
proof fn lemma_unfit_labels(labels: Seq<Seq<u8>>, rest: Seq<u8>)
    requires
        labels.len() >= 1,
        forall|i: int, k: int|
            0 <= i < labels.len() && 0 <= k < labels[i].len() ==> (#[trigger] labels[i][k]) != DOT,
        exists|i: int| 0 <= i < labels.len() && !(1 <= (#[trigger] labels[i]).len() <= 255),
    ensures
        parse_labels(labels_wire(labels) + rest) matches Ok((parsed, _)) ==> join(parsed, DOT)
            != join(labels, DOT) || (parsed.len() == 0 && labels.len() == 1 && labels[0].len()
            == 0),
    decreases labels.len(),
{
    let first = labels[0];
    let more = labels.drop_first();
    let n = first.len() as int;
    let m = n % 256;
    let bytes = labels_wire(labels) + rest;
    assert(bytes =~= seq![m as u8] + first + (labels_wire(more) + rest));
    assert(bytes[0] == m as u8);
    lemma_join_front(labels, DOT);
    if 1 <= n <= 255 {
        let unfit = choose|i: int| 0 <= i < labels.len() && !(1 <= (#[trigger] labels[i]).len() <= 255);
        assert(more[unfit - 1] == labels[unfit]);
        assert forall|i: int, k: int| 0 <= i < more.len() && 0 <= k < more[i].len() implies (
        #[trigger] more[i][k]) != DOT by {
            assert(more[i] == labels[i + 1]);
        }
        lemma_unfit_labels(more, rest);
        assert(bytes.subrange(1, 1 + n) =~= first);
        assert(bytes.skip(1 + n) =~= labels_wire(more) + rest);
        if valid_utf8(first) {
            match parse_labels(labels_wire(more) + rest) {
                Ok((tail, _)) => {
                    let parsed = seq![first] + tail;
                    assert(parsed.drop_first() =~= tail);
                    lemma_join_front(parsed, DOT);
                },
                Err(_) => {},
            }
        }
    } else if m != 0 {
        assert(bytes.subrange(1, 1 + m) =~= first.take(m));
        if valid_utf8(first.take(m)) {
            match parse_labels(bytes.skip(1 + m)) {
                Ok((tail, _)) => {
                    let parsed = seq![first.take(m)] + tail;
                    lemma_join_front(parsed, DOT);
                    assert(join(labels, DOT)[m] == first[m]);
                },
                Err(_) => {},
            }
        }
    } else {
        assert(join(Seq::<Seq<u8>>::empty(), DOT).len() == 0);
    }
}

/// A name that does not fit is not read back from its wire form as it is: the
/// text differs, or, for the empty name, the number of bytes read.
pub proof fn lemma_unfit_name(name: Seq<char>, rest: Seq<u8>)
    requires
        !name_fits(name),
    ensures
        parse_name(name_wire(name) + rest) matches Ok((text, used)) ==> text != name || (
        name.len() == 0 && used == 1),
        parse_name(name_wire(name) + rest) != Ok::<(Seq<char>, int), DecodeError>(
            (name, name_wire(name).len() as int),
        ),
{
    let raw = encode_utf8(name);
    let labels = raw_labels(name);
    lemma_split_encode(name);
    lemma_split_pieces(raw, DOT);
    lemma_split_nonempty(raw, DOT);
    lemma_join_split(raw, DOT);
    lemma_unfit_labels(labels, rest);
    lemma_parsed_labels(name_wire(name) + rest);
    match parse_labels(name_wire(name) + rest) {
        Ok((parsed, used)) => {
            lemma_encode_dotted(parsed);
            if dotted(parsed) == name {
                vstd::utf8::encode_utf8_decode_utf8(name);
                assert(raw.len() == 0);
                assert(name.len() == 0);
                assert(labels_wire(labels).len() == 2) by {
                    assert(labels.drop_first() =~= Seq::<Seq<u8>>::empty());
                    assert(labels_wire(labels.drop_first()) =~= seq![0u8]);
                }
            }
        },
        Err(_) => {},
    }
}

/// A name is read back from its wire form as it is, with every byte of that
/// form used and whatever follows it, exactly when it fits.
pub proof fn lemma_name_round_trip(name: Seq<char>, rest: Seq<u8>)
    ensures
        name_fits(name) <==> parse_name(name_wire(name) + rest) == Ok::<
            (Seq<char>, int),
            DecodeError,
        >((name, name_wire(name).len() as int)),
{
    if name_fits(name) {
        lemma_fit_name(name, rest);
    } else {
        lemma_unfit_name(name, rest);
    }
}

} // verus!
