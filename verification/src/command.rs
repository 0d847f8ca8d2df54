//! Building and encoding requests.
//!
//! A [`Command`] is an ordered list of sub-commands; each sub-command is a
//! non-empty list of byte-string arguments. One sub-command is a single
//! request, several are a pipeline. Encoding writes, per sub-command,
//! `*<argc>\r\n`, then `$<len>\r\n<arg>\r\n` per argument; sub-commands are
//! concatenated back to back, which is all the framing a pipeline has.

use vstd::prelude::*;

use crate::numbers::{dec_digits, push_decimal};

verus! {

/// The two line-break bytes `\r\n`.
pub open spec fn crlf() -> Seq<u8> {
    seq![13u8, 10u8]
}

/// The wire form of one argument: `$<len>\r\n<bytes>\r\n`.
pub open spec fn enc_arg(a: Seq<u8>) -> Seq<u8> {
    seq![36u8] + dec_digits(a.len()) + crlf() + a + crlf()
}

/// The wire form of a list of arguments, back to back.
pub open spec fn enc_args(args: Seq<Seq<u8>>) -> Seq<u8>
    decreases args,
{
    if args.len() == 0 {
        Seq::empty()
    } else {
        enc_args(args.drop_last()) + enc_arg(args.last())
    }
}

/// The wire form of one sub-command: `*<argc>\r\n`, then its arguments.
pub open spec fn enc_sub(args: Seq<Seq<u8>>) -> Seq<u8> {
    seq![42u8] + dec_digits(args.len()) + crlf() + enc_args(args)
}

/// The wire form of a whole command: its sub-commands, back to back.
pub open spec fn enc_command(subs: Seq<Seq<Seq<u8>>>) -> Seq<u8>
    decreases subs,
{
    if subs.len() == 0 {
        Seq::empty()
    } else {
        enc_command(subs.drop_last()) + enc_sub(subs.last())
    }
}

/// The request `GET key`.
pub open spec fn get_request(key: Seq<u8>) -> Seq<Seq<Seq<u8>>> {
    seq![seq![seq![71u8, 69u8, 84u8], key]]
}

/// The request `SET key value`.
pub open spec fn set_request(key: Seq<u8>, value: Seq<u8>) -> Seq<Seq<Seq<u8>>> {
    seq![seq![seq![83u8, 69u8, 84u8], key, value]]
}

/// The request `SET key value PX ttl_ms`.
pub open spec fn set_px_request(key: Seq<u8>, value: Seq<u8>, ttl_ms: nat) -> Seq<Seq<Seq<u8>>> {
    seq![seq![seq![83u8, 69u8, 84u8], key, value, seq![80u8, 88u8], dec_digits(ttl_ms)]]
}

/// One or more pipelined sub-commands, built once and then serialized.
pub struct Command {
    commands: Vec<Vec<Vec<u8>>>,
    amount: usize,
}

impl Command {
    /// The sub-commands with their arguments, as byte strings.
    pub closed spec fn view(self) -> Seq<Seq<Seq<u8>>> {
        self.commands.deep_view()
    }

    /// A command always holds at least one sub-command, each with at least
    /// one argument, and remembers how many sub-commands it holds.
    pub closed spec fn wf(self) -> bool {
        &&& self.amount == self@.len()
        &&& self@.len() >= 1
        &&& forall|i: int| 0 <= i < self@.len() ==> (#[trigger] self@[i]).len() >= 1
    }

    /// Start a command whose first sub-command is `cmd` without arguments.
    pub fn new(cmd: &[u8]) -> (r: Command)
        ensures
            r.wf(),
            r@ == seq![seq![cmd@]],
    {
        let mut args: Vec<Vec<u8>> = Vec::new();
        args.push(vstd::slice::slice_to_vec(cmd));
        let mut commands: Vec<Vec<Vec<u8>>> = Vec::new();
        commands.push(args);
        let r = Command { commands, amount: 1 };
        proof {
            assert(r@ =~~= seq![seq![cmd@]]);
        }
        r
    }

    /// Append one argument to the last sub-command.
    pub fn arg(self, bytes: &[u8]) -> (r: Command)
        requires
            self.wf(),
        ensures
            r.wf(),
            r@ == self@.update(self@.len() - 1, self@.last().push(bytes@)),
    {
        let ghost orig = self@;
        let mut commands = self.commands;
        let mut sub = commands.pop().unwrap();
        sub.push(vstd::slice::slice_to_vec(bytes));
        commands.push(sub);
        let r = Command { commands, amount: self.amount };
        proof {
            assert(r@ =~~= orig.update(orig.len() - 1, orig.last().push(bytes@)));
        }
        r
    }

    /// Start a further pipelined sub-command `cmd`.
    pub fn command(self, cmd: &[u8]) -> (r: Command)
        requires
            self.wf(),
        ensures
            r.wf(),
            r@ == self@.push(seq![cmd@]),
    {
        let ghost orig = self@;
        let mut commands = self.commands;
        let mut args: Vec<Vec<u8>> = Vec::new();
        args.push(vstd::slice::slice_to_vec(cmd));
        commands.push(args);
        let amount = commands.len();
        let r = Command { commands, amount };
        proof {
            assert(r@ =~~= orig.push(seq![cmd@]));
        }
        r
    }

    /// How many sub-commands (and so how many replies) this command has.
    pub fn pipeline_len(&self) -> (n: usize)
        requires
            self.wf(),
        ensures
            n == self@.len(),
            n >= 1,
    {
        self.amount
    }

    /// Encode the whole command to its wire bytes, consuming it.
    pub fn serialize(self) -> (out: Vec<u8>)
        ensures
            out@ == enc_command(self@),
    {
        let ghost subs = self@;
        let mut out: Vec<u8> = Vec::new();
        let n = self.commands.len();
        for i in 0..n
            invariant
                n == self.commands.len(),
                subs == self@,
                out@ == enc_command(subs.take(i as int)),
        {
            let sub = &self.commands[i];
            let ghost sub_start = out@;
            out.push(42);
            push_decimal(&mut out, sub.len() as u64);
            out.push(13);
            out.push(10);
            let m = sub.len();
            for j in 0..m
                invariant
                    m == sub.len(),
                    sub.deep_view() == subs[i as int],
                    i < subs.len(),
                    out@ == sub_start + seq![42u8] + dec_digits(m as nat) + crlf() + enc_args(
                        subs[i as int].take(j as int),
                    ),
            {
                let a = &sub[j];
                let ghost arg_start = out@;
                out.push(36);
                push_decimal(&mut out, a.len() as u64);
                out.push(13);
                out.push(10);
                push_bytes(&mut out, a);
                out.push(13);
                out.push(10);
                proof {
                    assert(a.deep_view() =~= a@);
                    assert(subs[i as int][j as int] == a@);
                    assert(out@ =~= arg_start + enc_arg(a@));
                    assert(subs[i as int].take(j + 1).drop_last() =~= subs[i as int].take(
                        j as int,
                    ));
                    assert(out@ =~= sub_start + seq![42u8] + dec_digits(m as nat) + crlf()
                        + enc_args(subs[i as int].take(j + 1)));
                }
            }
            proof {
                assert(subs[i as int].take(m as int) =~= subs[i as int]);
                assert(out@ =~= sub_start + enc_sub(subs[i as int]));
                assert(subs.take(i + 1).drop_last() =~= subs.take(i as int));
                assert(out@ =~= enc_command(subs.take(i + 1)));
            }
        }
        proof {
            assert(subs.take(n as int) =~= subs);
        }
        out
    }
}

/// Append all of `a` to `out`.
fn push_bytes(out: &mut Vec<u8>, a: &Vec<u8>)
    ensures
        final(out)@ == old(out)@ + a@,
{
    let n = a.len();
    for j in 0..n
        invariant
            n == a.len(),
            out@ == old(out)@ + a@.take(j as int),
        decreases n - j,
    {
        out.push(a[j]);
        proof {
            assert(a@.take(j + 1) =~= a@.take(j as int).push(a@[j as int]));
            assert(out@ =~= old(out)@ + a@.take(j + 1));
        }
    }
    proof {
        assert(a@.take(n as int) =~= a@);
    }
}

/// Build the request `GET key`.
pub fn get_command(key: &[u8]) -> (c: Command)
    ensures
        c.wf(),
        c@ == get_request(key@),
{
    let mut name: Vec<u8> = Vec::new();
    name.push(71);
    name.push(69);
    name.push(84);
    let c = Command::new(name.as_slice()).arg(key);
    proof {
        assert(name@ =~= seq![71u8, 69u8, 84u8]);
        assert(c@ =~~= get_request(key@));
    }
    c
}

/// Build the request `SET key value`.
pub fn set_command(key: &[u8], value: &[u8]) -> (c: Command)
    ensures
        c.wf(),
        c@ == set_request(key@, value@),
{
    let mut name: Vec<u8> = Vec::new();
    name.push(83);
    name.push(69);
    name.push(84);
    let c = Command::new(name.as_slice()).arg(key).arg(value);
    proof {
        assert(name@ =~= seq![83u8, 69u8, 84u8]);
        assert(c@ =~~= set_request(key@, value@));
    }
    c
}

/// Build the request `SET key value PX ttl_ms`, expiring the key after
/// `ttl_ms` milliseconds. A ttl of zero is a valid request; what the server
/// then does with the key is its own expiry semantics.
pub fn set_expire_command(key: &[u8], value: &[u8], ttl_ms: u64) -> (c: Command)
    ensures
        c.wf(),
        c@ == set_px_request(key@, value@, ttl_ms as nat),
{
    let mut name: Vec<u8> = Vec::new();
    name.push(83);
    name.push(69);
    name.push(84);
    let mut px: Vec<u8> = Vec::new();
    px.push(80);
    px.push(88);
    let mut ttl: Vec<u8> = Vec::new();
    push_decimal(&mut ttl, ttl_ms);
    let c = Command::new(name.as_slice()).arg(key).arg(value).arg(px.as_slice()).arg(
        ttl.as_slice(),
    );
    proof {
        assert(name@ =~= seq![83u8, 69u8, 84u8]);
        assert(px@ =~= seq![80u8, 88u8]);
        assert(c@ =~~= set_px_request(key@, value@, ttl_ms as nat));
    }
    c
}

} // verus!
