//! One request/response exchange over a connection's byte stream.
//!
//! The protocol guarantees that pipelined replies arrive strictly in
//! submission order with no interleaving, so a whole `run_command` round
//! trip is: write the encoded command in one piece, then decode exactly as
//! many replies as the command has sub-commands. An [`Exchange`] holds that
//! state while the embedding program moves the bytes: it hands out the
//! bytes to write, is fed whatever was read, and says when all replies are
//! in. Any framing violation or server error surfaced here is terminal for
//! the connection the bytes came from.

use vstd::prelude::*;

use crate::codec::{
    bulk_reply, decode_value, lemma_decode_bulk_reply, lemma_decode_n_extend,
    lemma_decode_n_split, lemma_decode_nil_reply, lemma_decode_simple_reply, nil_reply,
    simple_reply, spec_decode, spec_decode_n, Decoded, DecodeStep, DecodeSteps,
};
use crate::command::{enc_command, Command};
use crate::error::Error;
use crate::value::{Value, ValueModel};

verus! {

/// The state of one pipelined request/response round trip.
pub struct Exchange {
    awaited: usize,
    buf: Vec<u8>,
    pos: usize,
    replies: Vec<Value>,
}

impl Exchange {
    /// All reply bytes received so far.
    pub closed spec fn stream(self) -> Seq<u8> {
        self.buf@
    }

    /// How many replies the exchange expects in total.
    pub closed spec fn awaiting(self) -> nat {
        self.awaited as nat
    }

    /// Whether every expected reply has been decoded.
    pub closed spec fn complete(self) -> bool {
        self.replies@.len() == self.awaited
    }

    /// The replies decoded so far are exactly the first ones of the
    /// received stream, in wire order, with decoding poised to resume
    /// where they ended.
    pub closed spec fn wf(self) -> bool {
        &&& self.pos <= self.buf@.len()
        &&& self.replies@.len() <= self.awaited
        &&& spec_decode_n(self.buf@, 0, self.replies@.len() as nat) == (DecodeSteps::Values {
            vs: Value::views(self.replies@),
            next: self.pos as int,
        })
    }

    /// Begin an exchange: encode `command` and hand back the bytes that
    /// must be written to the server in one piece.
    pub fn begin(command: Command) -> (r: (Exchange, Vec<u8>))
        requires
            command.wf(),
        ensures
            r.0.wf(),
            r.0.stream() == Seq::<u8>::empty(),
            r.0.awaiting() == command@.len(),
            !r.0.complete(),
            r.1@ == enc_command(command@),
    {
        let awaited = command.pipeline_len();
        let bytes = command.serialize();
        let ex = Exchange { awaited, buf: Vec::new(), pos: 0, replies: Vec::new() };
        proof {
            assert(Value::views(ex.replies@) =~= Seq::<ValueModel>::empty());
        }
        (ex, bytes)
    }

    /// Hand the exchange more bytes read from the server. Feeding never
    /// changes the meaning of what was already decoded.
    pub fn feed(&mut self, data: &[u8])
        requires
            old(self).wf(),
        ensures
            final(self).wf(),
            final(self).stream() == old(self).stream() + data@,
            final(self).awaiting() == old(self).awaiting(),
            final(self).complete() == old(self).complete(),
    {
        proof {
            lemma_decode_n_extend(self.buf@, data@, 0, self.replies@.len() as nat);
        }
        let m = data.len();
        let mut j: usize = 0;
        while j < m
            invariant
                j <= m == data@.len(),
                self.buf@ == old(self).buf@ + data@.take(j as int),
                self.awaited == old(self).awaited,
                self.pos == old(self).pos,
                self.replies == old(self).replies,
            decreases m - j,
        {
            self.buf.push(data[j]);
            proof {
                assert(old(self).buf@ + data@.take(j + 1) =~= (old(self).buf@ + data@.take(
                    j as int,
                )).push(data@[j as int]));
            }
            j = j + 1;
        }
        proof {
            assert(data@.take(m as int) =~= data@);
            assert(self.buf@ =~= old(self).buf@ + data@);
        }
    }

    /// Decode as many replies as the received bytes complete. `Ok(true)`
    /// says every awaited reply is in; `Ok(false)` asks for more bytes.
    /// A server error or framing violation in the stream is returned as
    /// the error it spells, exactly as `spec_decode_n` assigns it.
    pub fn advance(&mut self) -> (r: Result<bool, Error>)
        requires
            old(self).wf(),
        ensures
            final(self).wf(),
            final(self).stream() == old(self).stream(),
            final(self).awaiting() == old(self).awaiting(),
            match spec_decode_n(old(self).stream(), 0, old(self).awaiting()) {
                DecodeSteps::Values { .. } => r == Ok::<bool, Error>(true),
                DecodeSteps::Incomplete => r == Ok::<bool, Error>(false),
                DecodeSteps::ServerErr { msg } => r matches Err(Error::ServerError(m)) && m@
                    == msg,
                DecodeSteps::Framing => r matches Err(e) && e == Error::FramingViolation,
            },
            r == Ok::<bool, Error>(true) ==> final(self).complete(),
    {
        let ghost s = self.buf@;
        loop
            invariant
                self.wf(),
                self.buf@ == s,
                s == old(self).stream(),
                self.awaited == old(self).awaited,
            decreases self.awaited - self.replies@.len(),
        {
            let k = self.replies.len();
            if k == self.awaited {
                return Ok(true);
            }
            proof {
                lemma_decode_n_split(s, 0, k as nat, (self.awaited - k) as nat);
            }
            match decode_value(&self.buf, self.pos) {
                Ok(Decoded::Done { value, next }) => {
                    proof {
                        let vs0 = Value::views(self.replies@);
                        let p0 = self.pos as int;
                        crate::codec::lemma_decode_next_bounds(s, p0);
                        lemma_decode_n_split(s, 0, k as nat, 1);
                        assert(spec_decode(s, p0) == (DecodeStep::Value {
                            v: value@,
                            next: next as int,
                        }));
                        assert(spec_decode_n(s, next as int, 0) == (DecodeSteps::Values {
                            vs: Seq::<ValueModel>::empty(),
                            next: next as int,
                        }));
                        assert(seq![value@] + Seq::<ValueModel>::empty() =~= seq![value@]);
                        assert(spec_decode_n(s, p0, 1) == (DecodeSteps::Values {
                            vs: seq![value@],
                            next: next as int,
                        }));
                        assert(vs0 + seq![value@] =~= vs0.push(value@));
                        assert(spec_decode_n(s, 0, (k + 1) as nat) == (DecodeSteps::Values {
                            vs: vs0.push(value@),
                            next: next as int,
                        }));
                        assert(self.replies@.push(value).drop_last() =~= self.replies@);
                        assert(Value::views(self.replies@.push(value)) =~= vs0.push(value@));
                    }
                    self.replies.push(value);
                    self.pos = next;
                },
                Ok(Decoded::Incomplete) => {
                    return Ok(false);
                },
                Err(e) => {
                    return Err(e);
                },
            }
        }
    }

    /// Hand out the decoded replies, in submission order.
    pub fn take_replies(self) -> (r: Vec<Value>)
        requires
            self.wf(),
            self.complete(),
        ensures
            r@.len() == self.awaiting(),
            spec_decode_n(self.stream(), 0, self.awaiting()) matches DecodeSteps::Values {
                vs,
                ..
            } && Value::views(r@) == vs,
    {
        proof {
            crate::value::lemma_views_index(self.replies@);
        }
        self.replies
    }
}

/// The acknowledgment text `OK`.
pub open spec fn ok_ack() -> Seq<u8> {
    seq![79u8, 75u8]
}

/// What a `GET` reply means: the absent value is a missing key, a byte
/// string is the entry, and any other reply is no valid `GET` reply.
pub open spec fn spec_get_result(v: ValueModel) -> Option<Option<Seq<u8>>> {
    match v {
        ValueModel::Nil => Some(None),
        ValueModel::BulkString(b) => Some(Some(b)),
        _ => None,
    }
}

/// Whether a reply is the exact `+OK` acknowledgment a `SET` requires.
pub open spec fn spec_set_ack(v: ValueModel) -> bool {
    v == ValueModel::SimpleString(ok_ack())
}

/// Map a `GET` reply to its meaning: a missing key is `Ok(None)`, never an
/// error; an entry comes back as exactly its bytes; any other reply is an
/// acknowledgment mismatch carrying the reply itself.
pub fn interpret_get_reply(v: Value) -> (r: Result<Option<Vec<u8>>, Error>)
    ensures
        match spec_get_result(v@) {
            Some(found) => match found {
                Some(b) => r matches Ok(Some(bytes)) && bytes@ == b,
                None => r matches Ok(o) && o is None,
            },
            None => r matches Err(Error::AcknowledgmentMismatch(g)) && g == v,
        },
{
    match v {
        Value::Nil => Ok(None),
        Value::BulkString(b) => Ok(Some(b)),
        other => Err(Error::AcknowledgmentMismatch(other)),
    }
}

/// Require the exact `+OK` acknowledgment of a `SET`: anything else is an
/// acknowledgment mismatch carrying the reply itself.
pub fn interpret_set_reply(v: Value) -> (r: Result<(), Error>)
    ensures
        spec_set_ack(v@) ==> r == Ok::<(), Error>(()),
        !spec_set_ack(v@) ==> (r matches Err(Error::AcknowledgmentMismatch(g)) && g == v),
{
    let is_ok = match &v {
        Value::SimpleString(s) => s.len() == 2 && {
            let a = s[0];
            let b = s[1];
            a == 79 && b == 75
        },
        _ => false,
    };
    if is_ok {
        proof {
            match v {
                Value::SimpleString(s) => {
                    assert(s@ =~= ok_ack());
                },
                _ => {},
            }
        }
        Ok(())
    } else {
        Err(Error::AcknowledgmentMismatch(v))
    }
}

/// Round trip of a stored value: the `GET` reply wire form that carries
/// `v` decodes to `v`'s byte string, whole and exact, and is interpreted
/// as finding exactly `v` — for every byte string `v`, the empty one and
/// ones holding raw `\r\n` included.
pub proof fn lemma_get_round_trip(v: Seq<u8>)
    ensures
        spec_decode(bulk_reply(v), 0) == (DecodeStep::Value {
            v: ValueModel::BulkString(v),
            next: bulk_reply(v).len() as int,
        }),
        spec_get_result(ValueModel::BulkString(v)) == Some(Some(v)),
{
    lemma_decode_bulk_reply(v);
}

/// A missing key: the nil reply decodes to the absent value, which `GET`
/// interprets as `None` — not as an error.
pub proof fn lemma_get_missing_key()
    ensures
        spec_decode(nil_reply(), 0) == (DecodeStep::Value { v: ValueModel::Nil, next: 5 }),
        spec_get_result(ValueModel::Nil) == Some(None::<Seq<u8>>),
{
    lemma_decode_nil_reply();
}

/// The `+OK` wire form decodes to the simple string that `SET`'s
/// acknowledgment check accepts.
pub proof fn lemma_set_acknowledged()
    ensures
        spec_decode(simple_reply(ok_ack()), 0) == (DecodeStep::Value {
            v: ValueModel::SimpleString(ok_ack()),
            next: 5,
        }),
        spec_set_ack(ValueModel::SimpleString(ok_ack())),
{
    lemma_decode_simple_reply(ok_ack());
}

} // verus!
