//! The chunk parser: from one line of the protocol to typed deltas.

use vstd::prelude::*;
use crate::bytes::{ascii, ascii_bytes, bytes_equal, to_vec};
use crate::json::{decode, decoded, field, lemma_array_value, text_field, values_of, Json, JsonValue};

verus! {

/// What one line of the protocol gives. `T` is the type of a text.
#[derive(Debug, Clone, PartialEq, Eq)]
pub enum Delta<T> {
    /// A fragment of the answer.
    Content(T),
    /// The stream is over, for the reason given.
    Finish(T),
    /// A line that could not be decoded, as it came.
    Raw(T),
}

/// A delta held in memory.
pub type ParsedDelta = Delta<Vec<u8>>;

impl View for Delta<Vec<u8>> {
    type V = Delta<Seq<u8>>;

    open spec fn view(&self) -> Delta<Seq<u8>> {
        match self {
            Delta::Content(t) => Delta::Content(t@),
            Delta::Finish(t) => Delta::Finish(t@),
            Delta::Raw(t) => Delta::Raw(t@),
        }
    }
}

/// The deltas that a sequence of stored deltas stands for.
pub open spec fn deltas_of(deltas: Seq<ParsedDelta>) -> Seq<Delta<Seq<u8>>> {
    Seq::new(deltas.len(), |k: int| deltas[k]@)
}

/// The line that ends a stream.
pub open spec fn done_line() -> Seq<u8> {
    ascii("[DONE]"@)
}

/// The reason that the end of a stream by `done_line` carries.
pub open spec fn done_reason() -> Seq<u8> {
    ascii("done"@)
}

/// What one element of `choices` carries: the content of its `delta`, where
/// that is a string, and then its `finish_reason`, where that is a string
/// and not empty.
pub open spec fn choice_deltas(choice: JsonValue) -> Seq<Delta<Seq<u8>>> {
    let content: Seq<Delta<Seq<u8>>> = match field(choice, ascii("delta"@)) {
        Some(delta) => match text_field(delta, ascii("content"@)) {
            Some(t) => seq![Delta::Content(t)],
            None => seq![],
        },
        None => seq![],
    };
    let finish: Seq<Delta<Seq<u8>>> = match text_field(choice, ascii("finish_reason"@)) {
        Some(r) => if r.len() > 0 {
            seq![Delta::Finish(r)]
        } else {
            seq![]
        },
        None => seq![],
    };
    content + finish
}

/// What the elements of `choices` carry, in their order.
pub open spec fn choices_deltas(choices: Seq<JsonValue>) -> Seq<Delta<Seq<u8>>>
    decreases choices.len(),
{
    if choices.len() == 0 {
        seq![]
    } else {
        choices_deltas(choices.drop_last()) + choice_deltas(choices.last())
    }
}

/// The `choices` of a line: the line is a JSON object whose member `choices`
/// is an array. `None` for every other line.
pub open spec fn chunk_choices(line: Seq<u8>) -> Option<Seq<JsonValue>> {
    match decoded(line) {
        Some(v) => match field(v, ascii("choices"@)) {
            Some(JsonValue::Array(choices)) => Some(choices),
            _ => None,
        },
        None => None,
    }
}

/// The deltas of one line.
pub open spec fn parsed(line: Seq<u8>) -> Seq<Delta<Seq<u8>>> {
    if line == done_line() {
        seq![Delta::Finish(done_reason())]
    } else {
        match chunk_choices(line) {
            Some(choices) => choices_deltas(choices),
            None => seq![Delta::Raw(line)],
        }
    }
}

fn push_choice(choice: &Json, out: &mut Vec<ParsedDelta>)
    ensures
        deltas_of(final(out)@) == deltas_of(old(out)@) + choice_deltas(choice@),
{
    proof {
        reveal_strlit("delta");
        reveal_strlit("content");
        reveal_strlit("finish_reason");
    }
    let ghost before = deltas_of(out@);
    let ghost mut content: Seq<Delta<Seq<u8>>> = seq![];
    if let Some(delta) = choice.get(ascii_bytes("delta")) {
        if let Some(Json::Text(t)) = delta.get(ascii_bytes("content")) {
            let d: ParsedDelta = Delta::Content(to_vec(t.as_slice()));
            proof {
                content = seq![d@];
                assert(deltas_of(out@.push(d)) =~= deltas_of(out@).push(d@));
            }
            out.push(d);
        }
    }
    assert(deltas_of(out@) =~= before + content);
    if let Some(Json::Text(r)) = choice.get(ascii_bytes("finish_reason")) {
        if r.len() > 0 {
            let d: ParsedDelta = Delta::Finish(to_vec(r.as_slice()));
            proof {
                assert(deltas_of(out@.push(d)) =~= deltas_of(out@).push(d@));
            }
            out.push(d);
        }
    }
    assert(deltas_of(out@) =~= before + choice_deltas(choice@));
}

fn raw_line(line: &[u8]) -> (out: Vec<ParsedDelta>)
    ensures
        deltas_of(out@) == seq![Delta::Raw(line@)],
{
    let mut out: Vec<ParsedDelta> = Vec::new();
    out.push(Delta::Raw(to_vec(line)));
    assert(deltas_of(out@) =~= seq![Delta::Raw(line@)]);
    out
}

/// Classifies one line of the protocol.
///
/// The terminator gives one `Finish` with the reason `done`. A line that
/// decodes as an object with an array `choices` gives what its elements
/// carry, in their order; this may be nothing. Every other line comes back
/// whole, as one `Raw`.
pub fn parse_chunk(line: &[u8]) -> (out: Vec<ParsedDelta>)
    ensures
        deltas_of(out@) == parsed(line@),
{
    proof {
        reveal_strlit("[DONE]");
        reveal_strlit("done");
        reveal_strlit("choices");
    }
    if bytes_equal(line, ascii_bytes("[DONE]")) {
        let mut out: Vec<ParsedDelta> = Vec::new();
        out.push(Delta::Finish(to_vec(ascii_bytes("done"))));
        assert(deltas_of(out@) =~= seq![Delta::Finish(done_reason())]);
        return out;
    }
    match decode(line) {
        None => raw_line(line),
        Some(v) => match v.get(ascii_bytes("choices")) {
            Some(Json::Array(choices)) => {
                let mut out: Vec<ParsedDelta> = Vec::new();
                let mut k: usize = 0;
                assert(deltas_of(out@) =~= Seq::empty());
                assert(values_of(choices@).take(0) =~= Seq::empty());
                while k < choices.len()
                    invariant
                        k <= choices@.len(),
                        deltas_of(out@) == choices_deltas(values_of(choices@).take(k as int)),
                    decreases choices@.len() - k,
                {
                    proof {
                        let next = values_of(choices@).take(k + 1);
                        assert(next.drop_last() =~= values_of(choices@).take(k as int));
                        assert(next.last() == choices@[k as int]@);
                    }
                    push_choice(&choices[k], &mut out);
                    k += 1;
                }
                assert(values_of(choices@).take(k as int) =~= values_of(choices@));
                proof {
                    lemma_array_value(*choices);
                }
                out
            },
            _ => raw_line(line),
        },
    }
}

} // verus!
