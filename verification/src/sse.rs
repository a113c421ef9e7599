//! Frames of the connection: from the bytes of the response, as they
//! arrive, to the frames that they carry.

use vstd::prelude::*;
use crate::bytes::{ascii, ascii_bytes, copy_range, has_word, to_vec, word_at};
use crate::json::ZERO;
use crate::session::{RawEvent, RawKind};
use crate::writer::append;

verus! {

pub const LINE_FEED: u8 = 0x0A;

pub const CARRIAGE_RETURN: u8 = 0x0D;

pub const SPACE: u8 = 0x20;

/// The first position from `i` on that holds a line feed; the length of
/// `s` where there is none.
pub open spec fn line_end(s: Seq<u8>, i: int) -> int
    decreases s.len() - i,
{
    if 0 <= i < s.len() && s[i] != LINE_FEED {
        line_end(s, i + 1)
    } else {
        i
    }
}

/// A line without the carriage return at its end, if it has one.
pub open spec fn without_return(line: Seq<u8>) -> Seq<u8> {
    if line.len() > 0 && line.last() == CARRIAGE_RETURN {
        line.drop_last()
    } else {
        line
    }
}

/// The lines of `s` that a line feed ends, in their order, each without
/// its line end.
pub open spec fn complete_lines(s: Seq<u8>) -> Seq<Seq<u8>>
    decreases s.len(),
{
    let end = line_end(s, 0);
    if 0 <= end < s.len() {
        seq![without_return(s.take(end))] + complete_lines(s.skip(end + 1))
    } else {
        Seq::empty()
    }
}

/// What stands in `s` behind its last line feed.
pub open spec fn unfinished(s: Seq<u8>) -> Seq<u8>
    decreases s.len(),
{
    let end = line_end(s, 0);
    if 0 <= end < s.len() {
        unfinished(s.skip(end + 1))
    } else {
        s
    }
}

/// The field name that marks the data of a frame.
pub open spec fn data_field() -> Seq<u8> {
    ascii("data:"@)
}

/// The data of the frame that a line carries: what follows `data:`,
/// without the one space that may stand first. `None` for every other
/// line: an empty one, a comment, another field.
pub open spec fn line_data(line: Seq<u8>) -> Option<Seq<u8>> {
    if has_word(line, 0, data_field()) {
        let value = line.skip(data_field().len() as int);
        Some(
            if value.len() > 0 && value[0] == SPACE {
                value.skip(1)
            } else {
                value
            },
        )
    } else {
        None
    }
}

/// The frames that the lines carry, in their order.
pub open spec fn frames_of(lines: Seq<Seq<u8>>) -> Seq<(RawKind, Seq<u8>)>
    decreases lines.len(),
{
    if lines.len() == 0 {
        Seq::empty()
    } else {
        let front = frames_of(lines.drop_last());
        match line_data(lines.last()) {
            Some(data) => front.push((RawKind::Message, data)),
            None => front,
        }
    }
}

/// The frames that a sequence of stored frames stands for.
pub open spec fn raw_events_of(events: Seq<RawEvent>) -> Seq<(RawKind, Seq<u8>)> {
    Seq::new(events.len(), |k: int| events[k]@)
}

/// Whether no line feed stands in `s`.
pub open spec fn one_line(s: Seq<u8>) -> bool {
    forall|k: int| 0 <= k < s.len() ==> #[trigger] s[k] != LINE_FEED
}

proof fn lemma_line_end(s: Seq<u8>, i: int, n: int)
    requires
        0 <= i <= n <= s.len(),
        forall|k: int| i <= k < n ==> #[trigger] s[k] != LINE_FEED,
        n < s.len() ==> s[n] == LINE_FEED,
    ensures
        line_end(s, i) == n,
    decreases n - i,
{
    if i < n {
        lemma_line_end(s, i + 1, n);
    }
}

proof fn lemma_line_end_bounds(s: Seq<u8>, i: int)
    requires
        0 <= i <= s.len(),
    ensures
        i <= line_end(s, i) <= s.len(),
        forall|k: int| i <= k < line_end(s, i) ==> #[trigger] s[k] != LINE_FEED,
        line_end(s, i) < s.len() ==> s[line_end(s, i)] == LINE_FEED,
    decreases s.len() - i,
{
    if i < s.len() && s[i] != LINE_FEED {
        lemma_line_end_bounds(s, i + 1);
    }
}

/// What stands behind the last line feed holds none.
pub proof fn law_unfinished_holds_no_line_feed(s: Seq<u8>)
    ensures
        one_line(unfinished(s)),
    decreases s.len(),
{
    let end = line_end(s, 0);
    lemma_line_end_bounds(s, 0);
    if end < s.len() {
        law_unfinished_holds_no_line_feed(s.skip(end + 1));
    }
}

/// Bytes that arrive in two parts carry the lines that they carry as a
/// whole: the lines of the first part, then the lines of what the first
/// part left unfinished with the second part behind it.
pub proof fn law_parts_carry_the_same_lines(a: Seq<u8>, b: Seq<u8>)
    ensures
        complete_lines(a + b) == complete_lines(a) + complete_lines(unfinished(a) + b),
        unfinished(a + b) == unfinished(unfinished(a) + b),
    decreases a.len(),
{
    let end = line_end(a, 0);
    lemma_line_end_bounds(a, 0);
    if end < a.len() {
        lemma_line_end(a + b, 0, end);
        assert((a + b).take(end) =~= a.take(end));
        assert((a + b).skip(end + 1) =~= a.skip(end + 1) + b);
        law_parts_carry_the_same_lines(a.skip(end + 1), b);
        assert(seq![without_return(a.take(end))] + (complete_lines(a.skip(end + 1))
            + complete_lines(unfinished(a) + b)) =~= complete_lines(a) + complete_lines(
            unfinished(a) + b,
        ));
    } else {
        assert(Seq::<Seq<u8>>::empty() + complete_lines(a + b) =~= complete_lines(a + b));
    }
}

/// The data of the frame that a line carries.
pub fn data_of_line(line: &[u8]) -> (data: Option<Vec<u8>>)
    ensures
        data matches Some(d) ==> line_data(line@) == Some(d@),
        data is None ==> line_data(line@) is None,
{
    proof {
        reveal_strlit("data:");
    }
    let field = ascii_bytes("data:");
    if !word_at(line, 0, field) {
        return None;
    }
    let mut from: usize = field.len();
    if from < line.len() && line[from] == SPACE {
        from += 1;
    }
    let data = copy_range(line, from, line.len());
    proof {
        let value = line@.skip(data_field().len() as int);
        if value.len() > 0 && value[0] == SPACE {
            assert(value.skip(1) =~= line@.subrange(from as int, line@.len() as int));
        } else {
            assert(value =~= line@.subrange(from as int, line@.len() as int));
        }
    }
    Some(data)
}

/// Splits what arrives into lines and gives the frames that they carry.
/// It keeps the bytes of a line until its line feed has arrived.
pub struct FrameDecoder {
    pending: Vec<u8>,
}

impl FrameDecoder {
    #[verifier::type_invariant]
    spec fn well_formed(self) -> bool {
        one_line(self.pending@)
    }

    /// The bytes of the line that has not ended yet.
    pub closed spec fn view(&self) -> Seq<u8> {
        self.pending@
    }

    /// A decoder that has seen nothing.
    pub fn new() -> (decoder: FrameDecoder)
        ensures
            decoder@ == Seq::<u8>::empty(),
    {
        FrameDecoder { pending: Vec::new() }
    }

    /// Takes the next bytes of the response and gives the frames of the
    /// lines that they complete, in their order.
    pub fn feed(&mut self, bytes: &[u8]) -> (frames: Vec<RawEvent>)
        ensures
            raw_events_of(frames@) == frames_of(complete_lines(old(self)@ + bytes@)),
            final(self)@ == unfinished(old(self)@ + bytes@),
    {
        proof {
            use_type_invariant(&*self);
        }
        let ghost total = self@ + bytes@;
        let ghost mut lines: Seq<Seq<u8>> = Seq::empty();
        let mut pending: Vec<u8> = Vec::new();
        core::mem::swap(&mut self.pending, &mut pending);
        let mut frames: Vec<RawEvent> = Vec::new();
        let mut k: usize = 0;
        assert(bytes@.skip(0) =~= bytes@);
        assert(lines + complete_lines(total) =~= complete_lines(total));
        assert(raw_events_of(frames@) =~= frames_of(lines));
        while k < bytes.len()
            invariant
                k <= bytes@.len(),
                one_line(pending@),
                self.pending@.len() == 0,
                complete_lines(total) == lines + complete_lines(pending@ + bytes@.skip(k as int)),
                unfinished(total) == unfinished(pending@ + bytes@.skip(k as int)),
                raw_events_of(frames@) == frames_of(lines),
            decreases bytes@.len() - k,
        {
            let b = bytes[k];
            let ghost here = pending@ + bytes@.skip(k as int);
            if b == LINE_FEED {
                proof {
                    lemma_line_end(here, 0, pending@.len() as int);
                    assert(here.take(pending@.len() as int) =~= pending@);
                    assert(here.skip(pending@.len() as int + 1) =~= Seq::<u8>::empty() + bytes@.skip(
                        k + 1,
                    ));
                }
                let mut end = pending.len();
                if end > 0 && pending[end - 1] == CARRIAGE_RETURN {
                    end -= 1;
                }
                let ghost line = without_return(pending@);
                assert(pending@.subrange(0, end as int) =~= line);
                let ghost grown = lines.push(line);
                proof {
                    assert(grown.drop_last() =~= lines);
                    assert(lines + (seq![line] + complete_lines(
                        Seq::<u8>::empty() + bytes@.skip(k + 1),
                    )) =~= grown + complete_lines(Seq::<u8>::empty() + bytes@.skip(k + 1)));
                }
                let whole = copy_range(pending.as_slice(), 0, end);
                match data_of_line(whole.as_slice()) {
                    Some(data) => {
                        let frame = RawEvent { kind: RawKind::Message, data };
                        assert(raw_events_of(frames@.push(frame)) =~= raw_events_of(frames@).push(
                            frame@,
                        ));
                        frames.push(frame);
                    },
                    None => {},
                }
                proof {
                    lines = grown;
                }
                pending = Vec::new();
            } else {
                proof {
                    assert(pending@.push(b) + bytes@.skip(k + 1) =~= here);
                }
                pending.push(b);
            }
            k += 1;
        }
        proof {
            assert(pending@ + bytes@.skip(k as int) =~= pending@);
            lemma_line_end(pending@, 0, pending@.len() as int);
            assert(lines + Seq::<Seq<u8>>::empty() =~= lines);
        }
        core::mem::swap(&mut self.pending, &mut pending);
        frames
    }
}

/// The decimal digits of a number, the highest first.
pub open spec fn decimal(n: nat) -> Seq<u8>
    decreases n,
{
    if n < 10 {
        seq![(ZERO + n) as u8]
    } else {
        decimal(n / 10).push((ZERO + n % 10) as u8)
    }
}

/// The message of the error that reports a refused request.
pub open spec fn status_message(status: u16) -> Seq<u8> {
    ascii("HTTP "@) + decimal(status as nat)
}

/// What the answer to the request means for the stream: a status of
/// success opens it, every other status is an error of the transport.
pub open spec fn status_frame(status: u16) -> (RawKind, Seq<u8>) {
    if 200 <= status < 300 {
        (RawKind::Open, Seq::empty())
    } else {
        (RawKind::Error, status_message(status))
    }
}

fn write_decimal(n: u16, out: &mut Vec<u8>)
    ensures
        final(out)@ == old(out)@ + decimal(n as nat),
    decreases n,
{
    if n < 10 {
        out.push(ZERO + n as u8);
        assert(out@ =~= old(out)@ + decimal(n as nat));
    } else {
        write_decimal(n / 10, out);
        out.push(ZERO + (n % 10) as u8);
        assert(out@ =~= old(out)@ + decimal(n as nat));
    }
}

/// The frame that stands for the status of the answer.
pub fn frame_of_status(status: u16) -> (frame: RawEvent)
    ensures
        frame@ == status_frame(status),
{
    if 200 <= status && status < 300 {
        RawEvent { kind: RawKind::Open, data: Vec::new() }
    } else {
        proof {
            reveal_strlit("HTTP ");
        }
        let mut data = to_vec(ascii_bytes("HTTP "));
        write_decimal(status, &mut data);
        RawEvent { kind: RawKind::Error, data }
    }
}

} // verus!
