//! The bounded emitter: computes the prefix of the input that a
//! `head`-style pass writes, in line mode or in byte mode.

use vstd::prelude::*;
use crate::config::StopCondition;

verus! {

/// The ASCII line separator.
pub const NEWLINE: u8 = 10;

/// The fixed cap on how many bytes one byte-mode chunk may copy,
/// bounding memory use regardless of how large the requested count is.
pub const CHUNK_CAP: usize = 4096;

/// The first `min(n, |s|)` bytes of `s`: what byte mode emits.
pub open spec fn byte_head(s: Seq<u8>, n: nat) -> Seq<u8> {
    if n <= s.len() {
        s.subrange(0, n as int)
    } else {
        s
    }
}

/// Index of the first newline in `s`, or `|s|` if `s` has none.
pub open spec fn first_newline(s: Seq<u8>) -> nat
    decreases s.len(),
{
    if s.len() == 0 {
        0
    } else if s[0] == NEWLINE {
        0
    } else {
        (1 + first_newline(s.subrange(1, s.len() as int))) as nat
    }
}

/// `first_newline(s)` is the position of the first newline: no byte
/// before position `i` is a newline, and position `i` either holds a
/// newline or is the end of `s`.
pub proof fn lemma_first_newline_at(s: Seq<u8>, i: int)
    requires
        0 <= i <= s.len(),
        forall|j: int| 0 <= j < i ==> s[j] != NEWLINE,
        i < s.len() ==> s[i] == NEWLINE,
    ensures
        first_newline(s) == i,
    decreases s.len(),
{
    if s.len() == 0 {
    } else if s[0] == NEWLINE {
        assert(i == 0);
    } else {
        assert(i >= 1);
        let t = s.subrange(1, s.len() as int);
        assert(forall|j: int| 0 <= j < i - 1 ==> t[j] != NEWLINE);
        assert(i - 1 < t.len() ==> t[i - 1] == NEWLINE);
        lemma_first_newline_at(t, i - 1);
    }
}

/// The newline-delimited records of `s`. A final record without a
/// trailing newline still counts as a record; an empty input has none.
pub open spec fn records(s: Seq<u8>) -> Seq<Seq<u8>>
    decreases s.len(),
{
    if s.len() == 0 {
        Seq::empty()
    } else {
        let i = first_newline(s);
        if i < s.len() {
            seq![s.subrange(0, i as int)] + records(s.subrange(i as int + 1, s.len() as int))
        } else {
            seq![s]
        }
    }
}

/// The bytes written for a sequence of records: each record followed by
/// exactly one newline.
pub open spec fn join_records(rs: Seq<Seq<u8>>) -> Seq<u8>
    decreases rs.len(),
{
    if rs.len() == 0 {
        Seq::empty()
    } else {
        rs[0] + seq![NEWLINE] + join_records(rs.subrange(1, rs.len() as int))
    }
}

/// Appending one record to the joined output appends its bytes and one
/// newline.
pub proof fn lemma_join_records_push(rs: Seq<Seq<u8>>, r: Seq<u8>)
    ensures
        join_records(rs.push(r)) == join_records(rs) + r + seq![NEWLINE],
    decreases rs.len(),
{
    if rs.len() == 0 {
        let tail0 = rs.push(r).subrange(1, 1);
        assert(rs.push(r).len() == 1);
        assert(rs.push(r)[0] == r);
        assert(tail0 =~= Seq::<Seq<u8>>::empty());
        assert(join_records(tail0) == Seq::<u8>::empty());
        assert(join_records(rs.push(r)) == r + seq![NEWLINE] + join_records(tail0));
        assert(r + seq![NEWLINE] + Seq::<u8>::empty() =~= r + seq![NEWLINE]);
        assert(join_records(rs) == Seq::<u8>::empty());
        assert(join_records(rs) + r + seq![NEWLINE] =~= r + seq![NEWLINE]);
    } else {
        let tail = rs.subrange(1, rs.len() as int);
        assert(rs.push(r).subrange(1, rs.len() as int + 1) =~= tail.push(r));
        lemma_join_records_push(tail, r);
        assert(join_records(rs.push(r)) == rs[0] + seq![NEWLINE] + (join_records(tail) + r
            + seq![NEWLINE]));
        assert(rs[0] + seq![NEWLINE] + (join_records(tail) + r + seq![NEWLINE]) =~= (rs[0]
            + seq![NEWLINE] + join_records(tail)) + r + seq![NEWLINE]);
    }
}

/// The first `min(n, L)` records of `s`, each terminated by a single
/// newline: what line mode emits for a stream of `L` lines.
pub open spec fn line_head(s: Seq<u8>, n: nat) -> Seq<u8> {
    let rs = records(s);
    if n <= rs.len() {
        join_records(rs.subrange(0, n as int))
    } else {
        join_records(rs)
    }
}

/// Writes the first `min(count, L)` newline-delimited records of
/// `input`, each followed by one newline. Bytes inside a record are
/// passed through verbatim, whatever they hold; running out of input
/// before `count` records is normal completion.
pub fn line_mode_output(input: &Vec<u8>, count: u32) -> (out: Vec<u8>)
    requires
        count >= 1,
    ensures
        out@ == line_head(input@, count as nat),
{
    let ghost rs = records(input@);
    let mut out: Vec<u8> = Vec::new();
    let mut pos: usize = 0;
    let mut emitted: u32 = 0;
    proof {
        assert(input@.subrange(0, input@.len() as int) =~= input@);
        assert(rs.subrange(0, rs.len() as int) =~= rs);
        assert(rs.subrange(0, 0) =~= Seq::<Seq<u8>>::empty());
    }
    while emitted < count && pos < input.len()
        invariant
            emitted <= count,
            pos <= input.len(),
            emitted as int <= rs.len(),
            rs == records(input@),
            records(input@.subrange(pos as int, input@.len() as int)) == rs.subrange(
                emitted as int,
                rs.len() as int,
            ),
            out@ == join_records(rs.subrange(0, emitted as int)),
        decreases input.len() - pos,
    {
        let mut i: usize = pos;
        while i < input.len() && input[i] != NEWLINE
            invariant
                pos <= i <= input.len(),
                forall|j: int| pos as int <= j < i as int ==> input@[j] != NEWLINE,
            decreases input.len() - i,
        {
            i = i + 1;
        }
        let mut j: usize = pos;
        while j < i
            invariant
                pos <= j <= i <= input.len(),
                out@ == join_records(rs.subrange(0, emitted as int)) + input@.subrange(
                    pos as int,
                    j as int,
                ),
            decreases i - j,
        {
            out.push(input[j]);
            assert(out@ =~= join_records(rs.subrange(0, emitted as int)) + input@.subrange(
                pos as int,
                j as int + 1,
            ));
            j = j + 1;
        }
        out.push(NEWLINE);
        proof {
            let s = input@;
            let rem = s.subrange(pos as int, s.len() as int);
            let record = s.subrange(pos as int, i as int);
            assert(forall|j: int| 0 <= j < i - pos ==> rem[j] != NEWLINE);
            assert(i < s.len() ==> rem[i - pos] == NEWLINE);
            lemma_first_newline_at(rem, i as int - pos as int);
            let tail_recs = rs.subrange(emitted as int, rs.len() as int);
            if i < input.len() {
                assert(rem.subrange(0, i - pos as int) =~= record);
                assert(rem.subrange(i - pos as int + 1, rem.len() as int) =~= s.subrange(
                    i as int + 1,
                    s.len() as int,
                ));
                assert(records(rem) == seq![record] + records(
                    s.subrange(i as int + 1, s.len() as int),
                ));
            } else {
                assert(rem =~= record);
                assert(records(rem) == seq![record]);
            }
            assert(tail_recs.len() >= 1);
            assert(seq![record][0] == record);
            assert(records(rem)[0] == record);
            assert(tail_recs[0] == rs[emitted as int]);
            assert(rs[emitted as int] == record);
            lemma_join_records_push(rs.subrange(0, emitted as int), record);
            assert(rs.subrange(0, emitted as int).push(record) =~= rs.subrange(
                0,
                emitted as int + 1,
            ));
            assert(out@ == join_records(rs.subrange(0, emitted as int + 1)));
            if i < input.len() {
                assert(records(rem).subrange(1, records(rem).len() as int) =~= records(
                    s.subrange(i as int + 1, s.len() as int),
                ));
                assert(tail_recs.subrange(1, tail_recs.len() as int) =~= rs.subrange(
                    emitted as int + 1,
                    rs.len() as int,
                ));
                assert(records(s.subrange(i as int + 1, s.len() as int)) == rs.subrange(
                    emitted as int + 1,
                    rs.len() as int,
                ));
            } else {
                assert(emitted as int + 1 == rs.len());
                assert(s.subrange(s.len() as int, s.len() as int) =~= Seq::<u8>::empty());
                assert(records(s.subrange(s.len() as int, s.len() as int)) =~= rs.subrange(
                    emitted as int + 1,
                    rs.len() as int,
                ));
            }
        }
        emitted = emitted + 1;
        pos = if i < input.len() {
            i + 1
        } else {
            i
        };
    }
    proof {
        if emitted < count {
            assert(pos == input.len());
            assert(input@.subrange(pos as int, input@.len() as int) =~= Seq::<u8>::empty());
            assert(rs.subrange(emitted as int, rs.len() as int).len() == 0);
            assert(emitted as int == rs.len());
            assert(rs.subrange(0, emitted as int) =~= rs);
        }
    }
    out
}

/// Copies the first `min(count, |input|)` bytes of `input`, verbatim.
///
/// The copy proceeds in chunks of at most `CHUNK_CAP` bytes, shrinking
/// the last chunk to the remaining budget, as a streaming pass over a
/// reader would.
pub fn byte_mode_output(input: &Vec<u8>, count: u32) -> (out: Vec<u8>)
    requires
        count >= 1,
    ensures
        out@ == byte_head(input@, count as nat),
{
    let n: usize = count as usize;
    let mut out: Vec<u8> = Vec::new();
    let mut pos: usize = 0;
    let mut remaining: usize = n;
    while remaining > 0 && pos < input.len()
        invariant
            pos + remaining == n,
            pos <= input.len(),
            out@ == input@.subrange(0, pos as int),
        decreases remaining,
    {
        let chunk: usize = if remaining < CHUNK_CAP {
            remaining
        } else {
            CHUNK_CAP
        };
        let avail: usize = input.len() - pos;
        let take_len: usize = if chunk < avail {
            chunk
        } else {
            avail
        };
        let mut j: usize = 0;
        while j < take_len
            invariant
                j <= take_len,
                pos + take_len <= input.len(),
                take_len <= remaining,
                out@ == input@.subrange(0, pos as int + j as int),
            decreases take_len - j,
        {
            out.push(input[pos + j]);
            assert(out@ =~= input@.subrange(0, pos as int + j as int + 1));
            j = j + 1;
        }
        pos = pos + take_len;
        remaining = remaining - take_len;
    }
    proof {
        if remaining != 0 {
            assert(pos == input.len());
            assert(input@.subrange(0, pos as int) =~= input@);
        }
    }
    out
}

/// What one emission pass writes for `input` under `stop`.
pub open spec fn emit_spec(s: Seq<u8>, stop: StopCondition) -> Seq<u8> {
    match stop {
        StopCondition::Lines(n) => line_head(s, n as nat),
        StopCondition::Bytes(n) => byte_head(s, n as nat),
    }
}

/// Runs one emission pass: drains `input` under the stop condition and
/// returns exactly the bytes that are to be written.
pub fn emit(input: &Vec<u8>, stop: StopCondition) -> (out: Vec<u8>)
    requires
        stop.valid(),
    ensures
        out@ == emit_spec(input@, stop),
{
    match stop {
        StopCondition::Lines(n) => line_mode_output(input, n),
        StopCondition::Bytes(n) => byte_mode_output(input, n),
    }
}

/// Running the emitter twice on the same immutable input with the same
/// stop condition yields byte-identical output: the emitted bytes are
/// determined by the input and the stop condition alone.
pub proof fn lemma_emit_deterministic(
    s: Seq<u8>,
    stop: StopCondition,
    out1: Seq<u8>,
    out2: Seq<u8>,
)
    requires
        out1 == emit_spec(s, stop),
        out2 == emit_spec(s, stop),
    ensures
        out1 == out2,
{
}

/// A byte count at least as large as the input yields exactly the
/// available input, with no error.
pub proof fn lemma_byte_count_exceeds_input(s: Seq<u8>, n: nat)
    requires
        n >= s.len(),
    ensures
        byte_head(s, n) == s,
{
    if n <= s.len() {
        assert(s.subrange(0, n as int) =~= s);
    }
}

/// A line count at least as large as the number of records yields
/// exactly the available records, each terminated by one newline, with
/// no error.
pub proof fn lemma_line_count_exceeds_input(s: Seq<u8>, n: nat)
    requires
        n >= records(s).len(),
    ensures
        line_head(s, n) == join_records(records(s)),
{
    if n <= records(s).len() {
        assert(records(s).subrange(0, n as int) =~= records(s));
    }
}

} // verus!
