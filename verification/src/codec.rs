//! Decoding server replies from received bytes.
//!
//! A reply starts with a one-line header: a type byte, the rest of the line
//! up to `\n`, a trailing `\r` being trimmed. `+` carries the line itself,
//! `-` is a server-side error, `:` a signed integer, `$` a length-prefixed
//! byte string (`-1` standing for the absent value), `*` a count followed by
//! that many non-array replies. The decoder works over whatever prefix of
//! the stream has been received so far and reports `Incomplete` until a
//! whole reply is present; nothing here blocks, reads past a declared
//! length, or panics.

use vstd::prelude::*;

use crate::command::crlf;
use crate::error::Error;
use crate::numbers::{
    all_digits, dec_digits, digits_val, lemma_dec_digits, parse_int, scan_digits, ScannedNum,
};
use crate::value::{Value, ValueModel};

verus! {

/// The outcome of decoding one reply at a position of the stream.
pub enum DecodeStep {
    /// A whole reply; `next` is the position just past it.
    Value { v: ValueModel, next: int },
    /// A `-` reply carrying the server's message.
    ServerErr { msg: Seq<u8> },
    /// Bytes that can never frame a reply.
    Framing,
    /// More bytes are needed.
    Incomplete,
}

/// The outcome of decoding several replies in a row.
pub enum DecodeSteps {
    /// All replies, in wire order; `next` is the position just past them.
    Values { vs: Seq<ValueModel>, next: int },
    /// A `-` reply carrying the server's message.
    ServerErr { msg: Seq<u8> },
    /// Bytes that can never frame a reply.
    Framing,
    /// More bytes are needed.
    Incomplete,
}

/// The position of the first `\n` at or after `pos`, if any.
pub open spec fn line_end(s: Seq<u8>, pos: int) -> Option<int>
    decreases s.len() - pos,
{
    if !(0 <= pos < s.len()) {
        None
    } else if s[pos] == 10 {
        Some(pos)
    } else {
        line_end(s, pos + 1)
    }
}

/// A line's content without its trailing `\r`, if it has one.
pub open spec fn strip_cr(t: Seq<u8>) -> Seq<u8> {
    if t.len() > 0 && t.last() == 13 {
        t.drop_last()
    } else {
        t
    }
}

/// Decode one non-array reply at `pos`: the `+ - : $` forms. A `*` here is
/// a framing violation, which is what rejects nested arrays.
pub open spec fn spec_decode_scalar(s: Seq<u8>, pos: int) -> DecodeStep {
    match line_end(s, pos) {
        None => DecodeStep::Incomplete,
        Some(nl) => {
            let rest = strip_cr(s.subrange(pos + 1, nl));
            if s[pos] == 43 {  // '+'
                DecodeStep::Value { v: ValueModel::SimpleString(rest), next: nl + 1 }
            } else if s[pos] == 45 {  // '-'
                DecodeStep::ServerErr { msg: rest }
            } else if s[pos] == 58 {  // ':'
                match parse_int(rest) {
                    Some(v) => if i64::MIN <= v <= i64::MAX {
                        DecodeStep::Value { v: ValueModel::Integer(v), next: nl + 1 }
                    } else {
                        DecodeStep::Framing
                    },
                    None => DecodeStep::Framing,
                }
            } else if s[pos] == 36 {  // '$'
                if rest =~= seq![45u8, 49u8] {  // the "-1" sentinel
                    DecodeStep::Value { v: ValueModel::Nil, next: nl + 1 }
                } else if rest.len() > 0 && all_digits(rest) {
                    let len = digits_val(rest) as int;
                    if nl + 1 + len + 2 <= s.len() {
                        DecodeStep::Value {
                            v: ValueModel::BulkString(s.subrange(nl + 1, nl + 1 + len)),
                            next: nl + 1 + len + 2,
                        }
                    } else {
                        DecodeStep::Incomplete
                    }
                } else {
                    DecodeStep::Framing
                }
            } else {
                DecodeStep::Framing
            }
        },
    }
}

/// Put one decoded reply in front of the outcome of the replies after it.
pub open spec fn prepend(v: ValueModel, rest: DecodeSteps) -> DecodeSteps {
    match rest {
        DecodeSteps::Values { vs, next } => DecodeSteps::Values { vs: seq![v] + vs, next },
        other => other,
    }
}

/// Decode `n` non-array replies in a row starting at `pos`: the elements
/// of an array reply.
pub open spec fn spec_decode_items(s: Seq<u8>, pos: int, n: nat) -> DecodeSteps
    decreases n,
{
    if n == 0 {
        DecodeSteps::Values { vs: Seq::empty(), next: pos }
    } else {
        match spec_decode_scalar(s, pos) {
            DecodeStep::Value { v, next } => prepend(
                v,
                spec_decode_items(s, next, (n - 1) as nat),
            ),
            DecodeStep::ServerErr { msg } => DecodeSteps::ServerErr { msg },
            DecodeStep::Framing => DecodeSteps::Framing,
            DecodeStep::Incomplete => DecodeSteps::Incomplete,
        }
    }
}

/// Decode one reply of any form at `pos`. An array header `*<count>\r\n`
/// must carry a plain run of digits: a negative or malformed count is a
/// framing violation.
pub open spec fn spec_decode(s: Seq<u8>, pos: int) -> DecodeStep {
    match line_end(s, pos) {
        None => DecodeStep::Incomplete,
        Some(nl) => {
            if s[pos] == 42 {  // '*'
                let rest = strip_cr(s.subrange(pos + 1, nl));
                if rest.len() > 0 && all_digits(rest) {
                    match spec_decode_items(s, nl + 1, digits_val(rest)) {
                        DecodeSteps::Values { vs, next } => DecodeStep::Value {
                            v: ValueModel::Array(vs),
                            next,
                        },
                        DecodeSteps::ServerErr { msg } => DecodeStep::ServerErr { msg },
                        DecodeSteps::Framing => DecodeStep::Framing,
                        DecodeSteps::Incomplete => DecodeStep::Incomplete,
                    }
                } else {
                    DecodeStep::Framing
                }
            } else {
                spec_decode_scalar(s, pos)
            }
        },
    }
}

/// Decode `n` replies of any form in a row starting at `pos`: the replies
/// of a pipeline of `n` requests, in submission order.
pub open spec fn spec_decode_n(s: Seq<u8>, pos: int, n: nat) -> DecodeSteps
    decreases n,
{
    if n == 0 {
        DecodeSteps::Values { vs: Seq::empty(), next: pos }
    } else {
        match spec_decode(s, pos) {
            DecodeStep::Value { v, next } => prepend(v, spec_decode_n(s, next, (n - 1) as nat)),
            DecodeStep::ServerErr { msg } => DecodeSteps::ServerErr { msg },
            DecodeStep::Framing => DecodeSteps::Framing,
            DecodeStep::Incomplete => DecodeSteps::Incomplete,
        }
    }
}

/// What `line_end` finds: the first `\n` of the tail, or none at all.
pub proof fn lemma_line_end(s: Seq<u8>, pos: int)
    requires
        0 <= pos <= s.len(),
    ensures
        match line_end(s, pos) {
            Some(nl) => pos <= nl < s.len() && s[nl] == 10 && forall|k: int|
                pos <= k < nl ==> s[k] != 10,
            None => forall|k: int| pos <= k < s.len() ==> s[k] != 10,
        },
    decreases s.len() - pos,
{
    if pos < s.len() && s[pos] != 10 {
        lemma_line_end(s, pos + 1);
    }
}

/// `line_end` returns exactly the position of the first `\n` of the tail.
pub proof fn lemma_line_end_is(s: Seq<u8>, pos: int, k: int)
    requires
        0 <= pos <= k < s.len(),
        s[k] == 10,
        forall|j: int| pos <= j < k ==> s[j] != 10,
    ensures
        line_end(s, pos) == Some(k),
    decreases k - pos,
{
    if pos < k {
        lemma_line_end_is(s, pos + 1, k);
    }
}

/// Appending bytes to the stream does not move an already-found line end.
pub proof fn lemma_line_end_extend(s: Seq<u8>, ext: Seq<u8>, pos: int)
    requires
        0 <= pos,
        line_end(s, pos) is Some,
    ensures
        line_end(s + ext, pos) == line_end(s, pos),
    decreases s.len() - pos,
{
    if pos < s.len() {
        assert((s + ext)[pos] == s[pos]);
        if s[pos] != 10 {
            lemma_line_end_extend(s, ext, pos + 1);
        }
    }
}

/// Find the first `\n` at or after `from`.
fn find_line_end(buf: &Vec<u8>, from: usize) -> (r: Option<usize>)
    requires
        from <= buf@.len(),
    ensures
        match line_end(buf@, from as int) {
            Some(nl) => r matches Some(u) && u == nl,
            None => r is None,
        },
{
    let n = buf.len();
    let mut j = from;
    while j < n
        invariant
            from <= j <= n == buf@.len(),
            forall|k: int| from <= k < j ==> buf@[k] != 10,
        decreases n - j,
    {
        if buf[j] == 10 {
            proof {
                lemma_line_end_is(buf@, from as int, j as int);
            }
            return Some(j);
        }
        j = j + 1;
    }
    proof {
        lemma_line_end(buf@, from as int);
    }
    None
}

/// A non-array reply already decoded from the received bytes keeps its
/// meaning when more bytes arrive.
pub proof fn lemma_scalar_extend(s: Seq<u8>, ext: Seq<u8>, pos: int)
    requires
        0 <= pos <= s.len(),
        !(spec_decode_scalar(s, pos) is Incomplete),
    ensures
        spec_decode_scalar(s + ext, pos) == spec_decode_scalar(s, pos),
{
    lemma_line_end(s, pos);
    match line_end(s, pos) {
        Some(nl) => {
            lemma_line_end_extend(s, ext, pos);
            assert((s + ext)[pos] == s[pos]);
            if s[pos] != 10 {
                assert(nl > pos);
                assert((s + ext).subrange(pos + 1, nl) =~= s.subrange(pos + 1, nl));
                let rest = strip_cr(s.subrange(pos + 1, nl));
                if s[pos] == 36 && !(rest =~= seq![45u8, 49u8]) && rest.len() > 0 && all_digits(
                    rest,
                ) {
                    let len = digits_val(rest) as int;
                    assert(nl + 1 + len + 2 <= s.len());
                    assert((s + ext).subrange(nl + 1, nl + 1 + len) =~= s.subrange(
                        nl + 1,
                        nl + 1 + len,
                    ));
                }
            }
        },
        None => {},
    }
}

/// A run of non-array replies already decoded keeps its meaning when more
/// bytes arrive.
pub proof fn lemma_items_extend(s: Seq<u8>, ext: Seq<u8>, pos: int, n: nat)
    requires
        0 <= pos <= s.len(),
        !(spec_decode_items(s, pos, n) is Incomplete),
    ensures
        spec_decode_items(s + ext, pos, n) == spec_decode_items(s, pos, n),
    decreases n,
{
    if n > 0 {
        lemma_scalar_extend(s, ext, pos);
        match spec_decode_scalar(s, pos) {
            DecodeStep::Value { v, next } => {
                lemma_scalar_next_bounds(s, pos);
                lemma_items_extend(s, ext, next, (n - 1) as nat);
            },
            _ => {},
        }
    }
}

/// A reply of any form already decoded keeps its meaning when more bytes
/// arrive.
pub proof fn lemma_decode_extend(s: Seq<u8>, ext: Seq<u8>, pos: int)
    requires
        0 <= pos <= s.len(),
        !(spec_decode(s, pos) is Incomplete),
    ensures
        spec_decode(s + ext, pos) == spec_decode(s, pos),
{
    lemma_line_end(s, pos);
    match line_end(s, pos) {
        Some(nl) => {
            lemma_line_end_extend(s, ext, pos);
            assert((s + ext)[pos] == s[pos]);
            if s[pos] == 42 {
                assert(nl > pos);
                assert((s + ext).subrange(pos + 1, nl) =~= s.subrange(pos + 1, nl));
                let rest = strip_cr(s.subrange(pos + 1, nl));
                if rest.len() > 0 && all_digits(rest) {
                    lemma_items_extend(s, ext, nl + 1, digits_val(rest));
                }
            } else {
                lemma_scalar_extend(s, ext, pos);
            }
        },
        None => {},
    }
}

/// A run of replies already decoded keeps its meaning when more bytes
/// arrive: what the server said first cannot be changed by what it says
/// later.
pub proof fn lemma_decode_n_extend(s: Seq<u8>, ext: Seq<u8>, pos: int, n: nat)
    requires
        0 <= pos <= s.len(),
        !(spec_decode_n(s, pos, n) is Incomplete),
    ensures
        spec_decode_n(s + ext, pos, n) == spec_decode_n(s, pos, n),
    decreases n,
{
    if n > 0 {
        lemma_decode_extend(s, ext, pos);
        match spec_decode(s, pos) {
            DecodeStep::Value { v, next } => {
                lemma_decode_next_bounds(s, pos);
                lemma_decode_n_extend(s, ext, next, (n - 1) as nat);
            },
            _ => {},
        }
    }
}

proof fn lemma_prepend_combine(v: ValueModel, vs: Seq<ValueModel>, x: DecodeSteps)
    ensures
        prepend(v, combine(vs, x)) == combine(seq![v] + vs, x),
{
    match x {
        DecodeSteps::Values { vs: ws, next } => {
            assert(seq![v] + (vs + ws) =~= (seq![v] + vs) + ws);
        },
        _ => {},
    }
}

/// Decoding `a + b` replies is decoding `a`, then decoding `b` where those
/// ended: a pipeline's replies can be consumed one at a time.
pub proof fn lemma_decode_n_split(s: Seq<u8>, pos: int, a: nat, b: nat)
    requires
        0 <= pos <= s.len(),
    ensures
        spec_decode_n(s, pos, a + b) == (match spec_decode_n(s, pos, a) {
            DecodeSteps::Values { vs, next } => combine(vs, spec_decode_n(s, next, b)),
            other => other,
        }),
    decreases a,
{
    if a == 0 {
        match spec_decode_n(s, pos, b) {
            DecodeSteps::Values { vs, next } => {
                assert(Seq::<ValueModel>::empty() + vs =~= vs);
            },
            _ => {},
        }
    } else {
        match spec_decode(s, pos) {
            DecodeStep::Value { v, next } => {
                lemma_decode_next_bounds(s, pos);
                lemma_decode_n_split(s, next, (a - 1) as nat, b);
                match spec_decode_n(s, next, (a - 1) as nat) {
                    DecodeSteps::Values { vs, next: nx } => {
                        lemma_prepend_combine(v, vs, spec_decode_n(s, nx, b));
                    },
                    _ => {},
                }
            },
            _ => {},
        }
    }
}

/// The same decoding outcome with every position moved right by `d`.
pub open spec fn shift_step(st: DecodeStep, d: int) -> DecodeStep {
    match st {
        DecodeStep::Value { v, next } => DecodeStep::Value { v, next: next + d },
        other => other,
    }
}

/// The same decoding outcome with every position moved right by `d`.
pub open spec fn shift_steps(st: DecodeSteps, d: int) -> DecodeSteps {
    match st {
        DecodeSteps::Values { vs, next } => DecodeSteps::Values { vs, next: next + d },
        other => other,
    }
}

/// A line end does not depend on the bytes before the position.
proof fn lemma_line_end_shift(a: Seq<u8>, b: Seq<u8>, pos: int)
    requires
        0 <= pos <= b.len(),
    ensures
        line_end(a + b, a.len() + pos) == (match line_end(b, pos) {
            Some(k) => Some(a.len() + k),
            None => None::<int>,
        }),
    decreases b.len() - pos,
{
    if pos < b.len() {
        assert((a + b)[a.len() + pos] == b[pos]);
        if b[pos] != 10 {
            lemma_line_end_shift(a, b, pos + 1);
        }
    }
}

/// Decoding a non-array reply does not depend on the bytes before the
/// position.
proof fn lemma_scalar_shift(a: Seq<u8>, b: Seq<u8>, pos: int)
    requires
        0 <= pos <= b.len(),
    ensures
        spec_decode_scalar(a + b, a.len() + pos) == shift_step(
            spec_decode_scalar(b, pos),
            a.len() as int,
        ),
{
    let d = a.len() as int;
    lemma_line_end_shift(a, b, pos);
    lemma_line_end(b, pos);
    match line_end(b, pos) {
        Some(nl) => {
            assert((a + b)[d + pos] == b[pos]);
            if b[pos] != 10 {
                assert(nl > pos);
                assert((a + b).subrange(d + pos + 1, d + nl) =~= b.subrange(pos + 1, nl));
                let rest = strip_cr(b.subrange(pos + 1, nl));
                if b[pos] == 36 && !(rest =~= seq![45u8, 49u8]) && rest.len() > 0 && all_digits(
                    rest,
                ) {
                    let len = digits_val(rest) as int;
                    if nl + 1 + len + 2 <= b.len() {
                        assert((a + b).subrange(d + nl + 1, d + nl + 1 + len) =~= b.subrange(
                            nl + 1,
                            nl + 1 + len,
                        ));
                    }
                }
            }
        },
        None => {},
    }
}

/// Decoding a run of non-array replies does not depend on the bytes
/// before the position.
proof fn lemma_items_shift(a: Seq<u8>, b: Seq<u8>, pos: int, n: nat)
    requires
        0 <= pos <= b.len(),
    ensures
        spec_decode_items(a + b, a.len() + pos, n) == shift_steps(
            spec_decode_items(b, pos, n),
            a.len() as int,
        ),
    decreases n,
{
    if n > 0 {
        lemma_scalar_shift(a, b, pos);
        match spec_decode_scalar(b, pos) {
            DecodeStep::Value { v, next } => {
                lemma_scalar_next_bounds(b, pos);
                lemma_items_shift(a, b, next, (n - 1) as nat);
            },
            _ => {},
        }
    }
}

/// Decoding a reply of any form does not depend on the bytes before the
/// position.
proof fn lemma_decode_shift(a: Seq<u8>, b: Seq<u8>, pos: int)
    requires
        0 <= pos <= b.len(),
    ensures
        spec_decode(a + b, a.len() + pos) == shift_step(spec_decode(b, pos), a.len() as int),
{
    let d = a.len() as int;
    lemma_line_end_shift(a, b, pos);
    lemma_line_end(b, pos);
    match line_end(b, pos) {
        Some(nl) => {
            assert((a + b)[d + pos] == b[pos]);
            if b[pos] == 42 {
                assert(nl > pos);
                assert((a + b).subrange(d + pos + 1, d + nl) =~= b.subrange(pos + 1, nl));
                let rest = strip_cr(b.subrange(pos + 1, nl));
                if rest.len() > 0 && all_digits(rest) {
                    lemma_items_shift(a, b, nl + 1, digits_val(rest));
                }
            } else {
                lemma_scalar_shift(a, b, pos);
            }
        },
        None => {},
    }
}

/// Decoding a run of replies does not depend on the bytes before the
/// position.
proof fn lemma_decode_n_shift(a: Seq<u8>, b: Seq<u8>, pos: int, n: nat)
    requires
        0 <= pos <= b.len(),
    ensures
        spec_decode_n(a + b, a.len() + pos, n) == shift_steps(
            spec_decode_n(b, pos, n),
            a.len() as int,
        ),
    decreases n,
{
    if n > 0 {
        lemma_decode_shift(a, b, pos);
        match spec_decode(b, pos) {
            DecodeStep::Value { v, next } => {
                lemma_decode_next_bounds(b, pos);
                lemma_decode_n_shift(a, b, next, (n - 1) as nat);
            },
            _ => {},
        }
    }
}

/// All of `ws`, back to back.
pub open spec fn concat_all(ws: Seq<Seq<u8>>) -> Seq<u8>
    decreases ws,
{
    if ws.len() == 0 {
        Seq::empty()
    } else {
        ws.first() + concat_all(ws.skip(1))
    }
}

/// Pipelining order. When the stream holds one whole reply wire form per
/// request, back to back in submission order, decoding that many replies
/// yields exactly the values those forms carry, in the same order, and
/// consumes the whole stream. Replies are never reordered or interleaved.
pub proof fn lemma_pipeline_order(ws: Seq<Seq<u8>>, vs: Seq<ValueModel>)
    requires
        ws.len() == vs.len(),
        forall|i: int| 0 <= i < ws.len() ==> spec_decode(#[trigger] ws[i], 0) == (
        DecodeStep::Value { v: vs[i], next: ws[i].len() as int }),
    ensures
        spec_decode_n(concat_all(ws), 0, ws.len()) == (DecodeSteps::Values {
            vs,
            next: concat_all(ws).len() as int,
        }),
    decreases ws.len(),
{
    if ws.len() == 0 {
        assert(vs =~= Seq::<ValueModel>::empty());
    } else {
        let w0 = ws.first();
        let rest = concat_all(ws.skip(1));
        let s = concat_all(ws);
        assert(s == w0 + rest);
        // the first reply reads the same with the rest appended
        assert(spec_decode(w0, 0) == (DecodeStep::Value { v: vs[0], next: w0.len() as int }));
        lemma_decode_extend(w0, rest, 0);
        // the remaining replies decode as they would at the stream's start
        assert forall|i: int| 0 <= i < ws.skip(1).len() implies spec_decode(
            #[trigger] ws.skip(1)[i],
            0,
        ) == (DecodeStep::Value { v: vs.skip(1)[i], next: ws.skip(1)[i].len() as int }) by {
            assert(ws.skip(1)[i] == ws[i + 1]);
            assert(vs.skip(1)[i] == vs[i + 1]);
        }
        lemma_pipeline_order(ws.skip(1), vs.skip(1));
        lemma_decode_n_shift(w0, rest, 0, (ws.len() - 1) as nat);
        assert(spec_decode_n(s, w0.len() as int, (ws.len() - 1) as nat) == (
        DecodeSteps::Values { vs: vs.skip(1), next: s.len() as int }));
        assert(seq![vs[0]] + vs.skip(1) =~= vs);
    }
}

/// What one decoding attempt over the received bytes can yield besides an
/// error: a whole reply with the position just past it, or a report that
/// more bytes are needed.
pub enum Decoded {
    /// A whole reply; decoding may resume at `next`.
    Done { value: Value, next: usize },
    /// The received bytes end before the reply does.
    Incomplete,
}

/// How an executable decoding result must reflect the specification's
/// outcome at the same position.
pub open spec fn reflects_step(step: DecodeStep, r: Result<Decoded, Error>) -> bool {
    match step {
        DecodeStep::Value { v, next } => r matches Ok(Decoded::Done { value, next: nx })
            && value@ == v && nx == next,
        DecodeStep::ServerErr { msg } => r matches Err(Error::ServerError(m)) && m@ == msg,
        DecodeStep::Framing => r == Err::<Decoded, Error>(Error::FramingViolation),
        DecodeStep::Incomplete => r matches Ok(g) && g is Incomplete,
    }
}

/// Decode one non-array reply at `pos`, as `spec_decode_scalar` describes.
#[verifier::rlimit(50)]
fn decode_scalar(buf: &Vec<u8>, pos: usize) -> (r: Result<Decoded, Error>)
    requires
        pos <= buf@.len(),
    ensures
        reflects_step(spec_decode_scalar(buf@, pos as int), r),
{
    let nl = match find_line_end(buf, pos) {
        None => {
            return Ok(Decoded::Incomplete);
        },
        Some(nl) => nl,
    };
    let n = buf.len();
    proof {
        lemma_line_end(buf@, pos as int);
    }
    let first = buf[pos];
    let hi = if nl > pos + 1 && buf[nl - 1] == 13 {
        nl - 1
    } else {
        nl
    };
    let ghost rest = strip_cr(buf@.subrange(pos as int + 1, nl as int));
    proof {
        assert(hi >= pos);
        if first != 10 {
            assert(nl > pos);
            if nl > pos + 1 && buf@[nl - 1] == 13 {
                assert(buf@.subrange(pos as int + 1, nl as int).last() == buf@[nl - 1]);
                assert(rest =~= buf@.subrange(pos as int + 1, hi as int));
            } else {
                assert(rest =~= buf@.subrange(pos as int + 1, hi as int));
            }
        }
    }
    if first == 43 {  // '+'
        let value = Value::SimpleString(copy_range(buf, pos + 1, hi));
        Ok(Decoded::Done { value, next: nl + 1 })
    } else if first == 45 {  // '-'
        Err(Error::ServerError(copy_range(buf, pos + 1, hi)))
    } else if first == 58 {  // ':'
        if hi > pos + 1 && buf[pos + 1] == 45 {
            proof {
                assert(rest[0] == 45);
                assert(rest.skip(1) =~= buf@.subrange(pos as int + 2, hi as int));
            }
            match scan_digits(buf, pos + 2, hi) {
                ScannedNum::Num(m) => {
                    if m <= 9223372036854775808u64 {
                        let value: i64 = if m == 9223372036854775808u64 {
                            i64::MIN
                        } else {
                            -(m as i64)
                        };
                        Ok(Decoded::Done { value: Value::Integer(value), next: nl + 1 })
                    } else {
                        Err(Error::FramingViolation)
                    }
                },
                ScannedNum::Big => Err(Error::FramingViolation),
                ScannedNum::NotNum => Err(Error::FramingViolation),
            }
        } else {
            proof {
                if rest.len() > 0 {
                    assert(rest[0] == buf@[pos as int + 1]);
                }
            }
            match scan_digits(buf, pos + 1, hi) {
                ScannedNum::Num(m) => {
                    if m <= 9223372036854775807u64 {
                        Ok(Decoded::Done { value: Value::Integer(m as i64), next: nl + 1 })
                    } else {
                        Err(Error::FramingViolation)
                    }
                },
                ScannedNum::Big => Err(Error::FramingViolation),
                ScannedNum::NotNum => Err(Error::FramingViolation),
            }
        }
    } else if first == 36 {  // '$'
        if hi - pos == 3 && buf[pos + 1] == 45 && buf[pos + 2] == 49 {
            proof {
                assert(rest =~= seq![45u8, 49u8]);
            }
            Ok(Decoded::Done { value: Value::Nil, next: nl + 1 })
        } else {
            proof {
                assert(!(rest =~= seq![45u8, 49u8]));
            }
            match scan_digits(buf, pos + 1, hi) {
                ScannedNum::Num(c) => {
                    let len = buf.len();
                    if (nl as u128) + 3 + (c as u128) <= len as u128 {
                        let start = nl + 1;
                        let end = start + (c as usize);
                        let value = Value::BulkString(copy_range(buf, start, end));
                        Ok(Decoded::Done { value, next: end + 2 })
                    } else {
                        Ok(Decoded::Incomplete)
                    }
                },
                ScannedNum::Big => {
                    let len = buf.len();
                    proof {
                        assert(len <= usize::MAX);
                        assert(digits_val(rest) > u64::MAX >= usize::MAX as u64);
                    }
                    Ok(Decoded::Incomplete)
                },
                ScannedNum::NotNum => Err(Error::FramingViolation),
            }
        }
    } else {
        Err(Error::FramingViolation)
    }
}

/// Glue an already-decoded run of replies onto the outcome of the rest.
pub open spec fn combine(acc: Seq<ValueModel>, rest: DecodeSteps) -> DecodeSteps {
    match rest {
        DecodeSteps::Values { vs, next } => DecodeSteps::Values { vs: acc + vs, next },
        other => other,
    }
}

proof fn lemma_combine_prepend(acc: Seq<ValueModel>, v: ValueModel, rest: DecodeSteps)
    ensures
        combine(acc, prepend(v, rest)) == combine(acc.push(v), rest),
{
    match rest {
        DecodeSteps::Values { vs, next } => {
            assert(acc + (seq![v] + vs) =~= acc.push(v) + vs);
        },
        _ => {},
    }
}

/// A decoded non-array reply ends strictly after it begins, inside the
/// received bytes.
pub proof fn lemma_scalar_next_bounds(s: Seq<u8>, pos: int)
    requires
        0 <= pos <= s.len(),
    ensures
        spec_decode_scalar(s, pos) matches DecodeStep::Value { next, .. } ==> pos < next
            <= s.len(),
{
    lemma_line_end(s, pos);
}

/// A decoded run of non-array replies ends inside the received bytes.
pub proof fn lemma_items_next_bounds(s: Seq<u8>, pos: int, n: nat)
    requires
        0 <= pos <= s.len(),
    ensures
        spec_decode_items(s, pos, n) matches DecodeSteps::Values { next, .. } ==> pos <= next
            <= s.len(),
    decreases n,
{
    if n > 0 {
        lemma_scalar_next_bounds(s, pos);
        match spec_decode_scalar(s, pos) {
            DecodeStep::Value { v, next } => {
                lemma_items_next_bounds(s, next, (n - 1) as nat);
            },
            _ => {},
        }
    }
}

/// A decoded reply of any form ends strictly after it begins, inside the
/// received bytes.
pub proof fn lemma_decode_next_bounds(s: Seq<u8>, pos: int)
    requires
        0 <= pos <= s.len(),
    ensures
        spec_decode(s, pos) matches DecodeStep::Value { next, .. } ==> pos < next <= s.len(),
{
    lemma_line_end(s, pos);
    lemma_scalar_next_bounds(s, pos);
    match line_end(s, pos) {
        Some(nl) => {
            lemma_items_next_bounds(s, nl + 1, digits_val(strip_cr(s.subrange(pos + 1, nl))));
        },
        None => {},
    }
}

/// Decode `n` non-array replies in a row from `start`, as
/// `spec_decode_items` describes. The executable count arrives either as
/// `count` itself, or, for a count too large for a `u64` (which can never
/// be satisfied by a finite buffer), as the `big` flag.
fn decode_items(buf: &Vec<u8>, start: usize, count: u64, big: bool, Ghost(n): Ghost<nat>) -> (r:
    Result<Option<(Vec<Value>, usize)>, Error>)
    requires
        start <= buf@.len(),
        !big ==> n == count as nat,
        big ==> n > u64::MAX,
    ensures
        match spec_decode_items(buf@, start as int, n) {
            DecodeSteps::Values { vs, next } => r matches Ok(Some((values, nx)))
                && Value::views(values@) == vs && nx == next,
            DecodeSteps::ServerErr { msg } => r matches Err(Error::ServerError(m)) && m@ == msg,
            DecodeSteps::Framing => r matches Err(e) && e == Error::FramingViolation,
            DecodeSteps::Incomplete => r matches Ok(o) && o is None,
        },
{
    let ghost s = buf@;
    let blen = buf.len();
    let mut values: Vec<Value> = Vec::new();
    let mut cur = start;
    let mut i: u64 = 0;
    loop
        invariant
            start <= cur <= blen == s.len(),
            s == buf@,
            !big ==> (n == count as nat && i <= count),
            big ==> n > u64::MAX,
            i as int <= n,
            i as int <= cur - start,
            spec_decode_items(s, start as int, n) == combine(
                Value::views(values@),
                spec_decode_items(s, cur as int, (n - i) as nat),
            ),
        decreases s.len() - cur,
    {
        if !big && i == count {
            proof {
                assert(Value::views(values@) + Seq::<ValueModel>::empty() =~= Value::views(
                    values@,
                ));
            }
            return Ok(Some((values, cur)));
        }
        match decode_scalar(buf, cur) {
            Ok(Decoded::Done { value, next }) => {
                proof {
                    lemma_scalar_next_bounds(s, cur as int);
                    lemma_combine_prepend(
                        Value::views(values@),
                        value@,
                        spec_decode_items(s, next as int, (n - i - 1) as nat),
                    );
                    assert(values@.push(value).drop_last() =~= values@);
                    assert(Value::views(values@.push(value)) =~= Value::views(values@).push(
                        value@,
                    ));
                }
                values.push(value);
                cur = next;
                i = i + 1;
            },
            Ok(Decoded::Incomplete) => {
                return Ok(None);
            },
            Err(e) => {
                return Err(e);
            },
        }
    }
}

/// Decode one reply of any form at `pos` of the received bytes, as
/// `spec_decode` describes: a whole reply with the position just past it,
/// a report that more bytes are needed, or the error the bytes spell.
pub fn decode_value(buf: &Vec<u8>, pos: usize) -> (r: Result<Decoded, Error>)
    requires
        pos <= buf@.len(),
    ensures
        reflects_step(spec_decode(buf@, pos as int), r),
{
    let nl = match find_line_end(buf, pos) {
        None => {
            return Ok(Decoded::Incomplete);
        },
        Some(nl) => nl,
    };
    let blen = buf.len();
    proof {
        lemma_line_end(buf@, pos as int);
    }
    if buf[pos] == 42 {  // '*'
        let hi = if nl > pos + 1 && buf[nl - 1] == 13 {
            nl - 1
        } else {
            nl
        };
        let ghost rest = strip_cr(buf@.subrange(pos as int + 1, nl as int));
        proof {
            assert(nl > pos);
            if nl > pos + 1 && buf@[nl - 1] == 13 {
                assert(buf@.subrange(pos as int + 1, nl as int).last() == buf@[nl - 1]);
                assert(rest =~= buf@.subrange(pos as int + 1, hi as int));
            } else {
                assert(rest =~= buf@.subrange(pos as int + 1, hi as int));
            }
        }
        match scan_digits(buf, pos + 1, hi) {
            ScannedNum::Num(c) => {
                match decode_items(buf, nl + 1, c, false, Ghost(c as nat)) {
                    Ok(Some((values, nx))) => Ok(
                        Decoded::Done { value: Value::Array(values), next: nx },
                    ),
                    Ok(None) => Ok(Decoded::Incomplete),
                    Err(e) => Err(e),
                }
            },
            ScannedNum::Big => {
                match decode_items(buf, nl + 1, 0, true, Ghost(digits_val(rest))) {
                    Ok(Some((values, nx))) => Ok(
                        Decoded::Done { value: Value::Array(values), next: nx },
                    ),
                    Ok(None) => Ok(Decoded::Incomplete),
                    Err(e) => Err(e),
                }
            },
            ScannedNum::NotNum => Err(Error::FramingViolation),
        }
    } else {
        decode_scalar(buf, pos)
    }
}

/// A decoded non-array reply is indeed never an array.
proof fn lemma_scalar_not_array(s: Seq<u8>, pos: int)
    ensures
        spec_decode_scalar(s, pos) matches DecodeStep::Value { v, .. } ==> !(v is Array),
{
}

/// Array elements are never themselves arrays: a decoded array holds only
/// scalar replies, a nested array having been rejected as a framing
/// violation instead of being mis-parsed.
pub proof fn lemma_no_nested_arrays(s: Seq<u8>, pos: int)
    ensures
        match spec_decode(s, pos) {
            DecodeStep::Value { v, .. } => match v {
                ValueModel::Array(vs) => forall|i: int|
                    0 <= i < vs.len() ==> !((#[trigger] vs[i]) is Array),
                _ => true,
            },
            _ => true,
        },
{
    match line_end(s, pos) {
        Some(nl) => {
            if s[pos] == 42 {
                let rest = strip_cr(s.subrange(pos + 1, nl));
                if rest.len() > 0 && all_digits(rest) {
                    lemma_items_not_array(s, nl + 1, digits_val(rest));
                }
            } else {
                lemma_scalar_not_array(s, pos);
            }
        },
        None => {},
    }
}

proof fn lemma_items_not_array(s: Seq<u8>, pos: int, n: nat)
    ensures
        spec_decode_items(s, pos, n) matches DecodeSteps::Values { vs, .. } ==> forall|i: int|
            0 <= i < vs.len() ==> !((#[trigger] vs[i]) is Array),
    decreases n,
{
    if n > 0 {
        lemma_scalar_not_array(s, pos);
        match spec_decode_scalar(s, pos) {
            DecodeStep::Value { v, next } => {
                lemma_items_not_array(s, next, (n - 1) as nat);
                match spec_decode_items(s, next, (n - 1) as nat) {
                    DecodeSteps::Values { vs, .. } => {
                        assert forall|i: int| 0 <= i < (seq![v] + vs).len() implies !((
                        #[trigger] (seq![v] + vs)[i]) is Array) by {
                            if i > 0 {
                                assert((seq![v] + vs)[i] == vs[i - 1]);
                            }
                        }
                    },
                    _ => {},
                }
            },
            _ => {},
        }
    }
}

/// The wire form of a `+` reply carrying `m`.
pub open spec fn simple_reply(m: Seq<u8>) -> Seq<u8> {
    seq![43u8] + m + crlf()
}

/// The wire form of a `-` reply carrying `m`.
pub open spec fn error_reply(m: Seq<u8>) -> Seq<u8> {
    seq![45u8] + m + crlf()
}

/// The wire form of a `$` reply carrying `v`.
pub open spec fn bulk_reply(v: Seq<u8>) -> Seq<u8> {
    seq![36u8] + dec_digits(v.len()) + crlf() + v + crlf()
}

/// The wire form of the `$-1` nil reply.
pub open spec fn nil_reply() -> Seq<u8> {
    seq![36u8, 45u8, 49u8, 13u8, 10u8]
}

/// The wire form of a `$` reply decodes back to exactly the bytes it
/// carries and consumes the whole form — for every byte string, the empty
/// one and ones holding raw `\r\n` included.
pub proof fn lemma_decode_bulk_reply(v: Seq<u8>)
    ensures
        spec_decode(bulk_reply(v), 0) == (DecodeStep::Value {
            v: ValueModel::BulkString(v),
            next: bulk_reply(v).len() as int,
        }),
{
    let w = bulk_reply(v);
    let d = dec_digits(v.len());
    lemma_dec_digits(v.len());
    let nl = 1 + d.len() as int + 1;
    assert(w[0] == 36);
    assert(w[nl - 1] == 13);
    assert(w[nl] == 10);
    assert forall|k: int| 0 <= k < nl implies w[k] != 10 by {
        if 1 <= k < 1 + d.len() {
            assert(w[k] == d[k - 1]);
        }
    }
    lemma_line_end_is(w, 0, nl);
    let rest = strip_cr(w.subrange(1, nl));
    assert(w.subrange(1, nl) =~= d + seq![13u8]);
    assert(rest =~= d);
    assert(!(rest =~= seq![45u8, 49u8]));
    assert(nl + 1 + v.len() + 2 == w.len());
    assert(w.subrange(nl + 1, nl + 1 + v.len()) =~= v);
}

/// The wire form of a `+` reply whose text holds no `\n` decodes back to
/// exactly that text.
pub proof fn lemma_decode_simple_reply(m: Seq<u8>)
    requires
        forall|i: int| 0 <= i < m.len() ==> m[i] != 10,
    ensures
        spec_decode(simple_reply(m), 0) == (DecodeStep::Value {
            v: ValueModel::SimpleString(m),
            next: simple_reply(m).len() as int,
        }),
{
    let w = simple_reply(m);
    let nl = 1 + m.len() as int + 1;
    assert(w[0] == 43);
    assert(w[nl - 1] == 13);
    assert(w[nl] == 10);
    assert forall|k: int| 0 <= k < nl implies w[k] != 10 by {
        if 1 <= k < 1 + m.len() {
            assert(w[k] == m[k - 1]);
        }
    }
    lemma_line_end_is(w, 0, nl);
    assert(w.subrange(1, nl) =~= m + seq![13u8]);
    assert(strip_cr(w.subrange(1, nl)) =~= m);
}

/// The wire form of a `-` reply whose message holds no `\n` is surfaced as
/// a server error carrying exactly that message.
pub proof fn lemma_decode_error_reply(m: Seq<u8>)
    requires
        forall|i: int| 0 <= i < m.len() ==> m[i] != 10,
    ensures
        spec_decode(error_reply(m), 0) == (DecodeStep::ServerErr { msg: m }),
{
    let w = error_reply(m);
    let nl = 1 + m.len() as int + 1;
    assert(w[0] == 45);
    assert(w[nl - 1] == 13);
    assert(w[nl] == 10);
    assert forall|k: int| 0 <= k < nl implies w[k] != 10 by {
        if 1 <= k < 1 + m.len() {
            assert(w[k] == m[k - 1]);
        }
    }
    lemma_line_end_is(w, 0, nl);
    assert(w.subrange(1, nl) =~= m + seq![13u8]);
    assert(strip_cr(w.subrange(1, nl)) =~= m);
}

/// The `$-1` wire form decodes to the absent value.
pub proof fn lemma_decode_nil_reply()
    ensures
        spec_decode(nil_reply(), 0) == (DecodeStep::Value { v: ValueModel::Nil, next: 5 }),
{
    let w = nil_reply();
    lemma_line_end_is(w, 0, 4);
    assert(w.subrange(1, 4) =~= seq![45u8, 49u8, 13u8]);
    assert(strip_cr(w.subrange(1, 4)) =~= seq![45u8, 49u8]);
}

/// A reply whose leading byte is none of `+ - : $ *` is a framing
/// violation as soon as its header line is in — never anything else.
pub proof fn lemma_bad_leading_byte(s: Seq<u8>, pos: int)
    requires
        0 <= pos < s.len(),
        line_end(s, pos) is Some,
        s[pos] != 43 && s[pos] != 45 && s[pos] != 58 && s[pos] != 36 && s[pos] != 42,
    ensures
        spec_decode(s, pos) == DecodeStep::Framing,
{
}

/// Copy `buf[lo..hi]` out into a fresh vector.
fn copy_range(buf: &Vec<u8>, lo: usize, hi: usize) -> (r: Vec<u8>)
    requires
        lo <= hi <= buf@.len(),
    ensures
        r@ == buf@.subrange(lo as int, hi as int),
{
    let mut r: Vec<u8> = Vec::new();
    let mut j = lo;
    while j < hi
        invariant
            lo <= j <= hi <= buf@.len(),
            r@ == buf@.subrange(lo as int, j as int),
        decreases hi - j,
    {
        r.push(buf[j]);
        proof {
            assert(buf@.subrange(lo as int, j + 1) =~= buf@.subrange(lo as int, j as int).push(
                buf@[j as int],
            ));
        }
        j = j + 1;
    }
    r
}

} // verus!
