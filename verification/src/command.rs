use vstd::prelude::*;

verus! {

use crate::bytes::{
    u64_le, u64_from_le, lemma_u64_le_round_trip, push_u64_le, read_u64_le, str_representable,
    spec_encode_str, spec_decode_str, lemma_str_round_trip, push_str_encoded, read_str,
};
use crate::codec::{KeyCodec, ValueCodec};
use crate::error::Error;
use crate::key::EncodedKey;

/// The reference record: a command line to be stored and replayed.
/// Its logical key is the pair (executable discriminant, argument
/// strings); the optional working directory is payload only.
#[derive(Debug, Clone, PartialEq)]
pub struct Command {
    pub executable: u8,
    pub args: Vec<String>,
    pub current_dir: Option<String>,
}

/// The mathematical shape of a [`Command`]: the same three fields with
/// every string read as its character sequence.
pub struct CommandView {
    pub executable: u8,
    pub args: Seq<Seq<char>>,
    pub current_dir: Option<Seq<char>>,
}

impl View for Command {
    type V = CommandView;

    open spec fn view(&self) -> CommandView {
        CommandView {
            executable: self.executable,
            args: self.args.deep_view(),
            current_dir: self.current_dir.deep_view(),
        }
    }
}

/// The concatenation of the framed encodings of the strings, in order.
pub open spec fn spec_encode_args(args: Seq<Seq<char>>) -> Seq<u8>
    decreases args.len(),
{
    if args.len() == 0 {
        Seq::empty()
    } else {
        spec_encode_str(args[0]) + spec_encode_args(args.skip(1))
    }
}

/// True when the string count and every string's byte length fit the
/// 64-bit framing. Every argument vector held in memory satisfies this.
pub open spec fn args_representable(args: Seq<Seq<char>>) -> bool {
    &&& args.len() < 0x1_0000_0000_0000_0000
    &&& forall|i: int| 0 <= i < args.len() ==> str_representable(#[trigger] args[i])
}

/// The canonical key bytes of a command's logical key: the one
/// discriminant byte, then the argument count, then each argument
/// framed with its own byte length.
pub open spec fn spec_encode_command_key(k: (u8, Seq<Seq<char>>)) -> Seq<u8> {
    seq![k.0] + u64_le(k.1.len() as u64) + spec_encode_args(k.1)
}

/// Parses `count` framed strings off the front of `b`, yielding them
/// and the unconsumed remainder.
pub open spec fn spec_decode_args(b: Seq<u8>, count: nat) -> Option<(Seq<Seq<char>>, Seq<u8>)>
    decreases count,
{
    if count == 0 {
        Some((Seq::empty(), b))
    } else {
        match spec_decode_str(b) {
            None => None,
            Some(p) => match spec_decode_args(p.1, (count - 1) as nat) {
                None => None,
                Some(q) => Some((seq![p.0] + q.0, q.1)),
            },
        }
    }
}

/// The logical key read back from key bytes; nothing when the bytes
/// are truncated, malformed, or not fully consumed.
pub open spec fn spec_decode_command_key(b: Seq<u8>) -> Option<(u8, Seq<Seq<char>>)> {
    if b.len() < 9 {
        None
    } else {
        let count = u64_from_le(b.subrange(1, 9)) as nat;
        match spec_decode_args(b.skip(9), count) {
            None => None,
            Some(p) => if p.1.len() == 0 {
                Some((b[0], p.0))
            } else {
                None
            },
        }
    }
}

/// The framed encoding of the optional working directory: one tag
/// byte (absent or present), then the framed string when present.
pub open spec fn spec_encode_opt_dir(d: Option<Seq<char>>) -> Seq<u8> {
    match d {
        None => seq![0u8],
        Some(s) => seq![1u8] + spec_encode_str(s),
    }
}

/// Parses the optional working directory off the front of `b`.
pub open spec fn spec_decode_opt_dir(b: Seq<u8>) -> Option<(Option<Seq<char>>, Seq<u8>)> {
    if b.len() < 1 {
        None
    } else if b[0] == 0 {
        Some((None, b.skip(1)))
    } else if b[0] == 1 {
        match spec_decode_str(b.skip(1)) {
            None => None,
            Some(p) => Some((Some(p.0), p.1)),
        }
    } else {
        None
    }
}

/// True when every variable-length field of the record fits the
/// 64-bit framing. Every record held in memory satisfies this.
pub open spec fn command_representable(v: CommandView) -> bool {
    &&& args_representable(v.args)
    &&& match v.current_dir {
        None => true,
        Some(s) => str_representable(s),
    }
}

/// The canonical value bytes of a whole command: the key fields in
/// key order, then the optional working directory.
pub open spec fn spec_encode_command(v: CommandView) -> Seq<u8> {
    spec_encode_command_key((v.executable, v.args)) + spec_encode_opt_dir(v.current_dir)
}

/// The record read back from value bytes; nothing when the bytes are
/// truncated, malformed, or not fully consumed.
pub open spec fn spec_decode_command(b: Seq<u8>) -> Option<CommandView> {
    if b.len() < 9 {
        None
    } else {
        let count = u64_from_le(b.subrange(1, 9)) as nat;
        match spec_decode_args(b.skip(9), count) {
            None => None,
            Some(p) => match spec_decode_opt_dir(p.1) {
                None => None,
                Some(q) => if q.1.len() == 0 {
                    Some(CommandView { executable: b[0], args: p.0, current_dir: q.0 })
                } else {
                    None
                },
            },
        }
    }
}

/// Appending one string to the argument list appends its framed
/// encoding to the encoded arguments.
proof fn lemma_encode_args_snoc(s: Seq<Seq<char>>, x: Seq<char>)
    ensures
        spec_encode_args(s.push(x)) == spec_encode_args(s) + spec_encode_str(x),
    decreases s.len(),
{
    if s.len() == 0 {
        assert(s.push(x)[0] == x);
        assert(s.push(x).skip(1) =~= Seq::<Seq<char>>::empty());
        assert(spec_encode_args(Seq::<Seq<char>>::empty()) == Seq::<u8>::empty());
        assert(spec_encode_args(s.push(x)) == spec_encode_str(x) + Seq::<u8>::empty());
        assert(spec_encode_args(s) == Seq::<u8>::empty());
        assert(spec_encode_str(x) + Seq::<u8>::empty() =~= Seq::<u8>::empty() + spec_encode_str(
            x,
        ));
    } else {
        assert(s.push(x)[0] == s[0]);
        assert(s.push(x).skip(1) =~= s.skip(1).push(x));
        lemma_encode_args_snoc(s.skip(1), x);
        assert(spec_encode_args(s.push(x)) == spec_encode_str(s[0]) + (spec_encode_args(s.skip(1))
            + spec_encode_str(x)));
        assert(spec_encode_str(s[0]) + (spec_encode_args(s.skip(1)) + spec_encode_str(x)) =~= (
        spec_encode_str(s[0]) + spec_encode_args(s.skip(1))) + spec_encode_str(x));
    }
}

/// The encoded prefix grows by one framed string per argument taken.
proof fn lemma_encode_args_take(s: Seq<Seq<char>>, i: int)
    requires
        0 <= i < s.len(),
    ensures
        spec_encode_args(s.take(i + 1)) == spec_encode_args(s.take(i)) + spec_encode_str(s[i]),
{
    assert(s.take(i + 1) =~= s.take(i).push(s[i]));
    lemma_encode_args_snoc(s.take(i), s[i]);
}

/// Round trip for argument lists: parsing the concatenated framed
/// strings back yields the original list and the trailing bytes.
pub proof fn lemma_args_round_trip(args: Seq<Seq<char>>, rest: Seq<u8>)
    requires
        forall|i: int| 0 <= i < args.len() ==> str_representable(#[trigger] args[i]),
    ensures
        spec_decode_args(spec_encode_args(args) + rest, args.len() as nat) == Some((args, rest)),
    decreases args.len(),
{
    if args.len() == 0 {
        assert(spec_encode_args(args) + rest =~= rest);
        assert(args =~= Seq::<Seq<char>>::empty());
    } else {
        let tail = spec_encode_args(args.skip(1)) + rest;
        assert(spec_encode_args(args) + rest =~= spec_encode_str(args[0]) + tail);
        assert(str_representable(args[0]));
        lemma_str_round_trip(args[0], tail);
        assert(forall|i: int|
            0 <= i < args.skip(1).len() ==> str_representable(#[trigger] args.skip(1)[i]));
        lemma_args_round_trip(args.skip(1), rest);
        assert(seq![args[0]] + args.skip(1) =~= args);
    }
}

/// Round trip for logical keys: decoding an encoded key yields the
/// key itself (the law behind [`KeyCodec`] for commands).
pub proof fn lemma_command_key_round_trip(k: (u8, Seq<Seq<char>>))
    requires
        args_representable(k.1),
    ensures
        spec_decode_command_key(spec_encode_command_key(k)) == Some(k),
{
    let b = spec_encode_command_key(k);
    let n = k.1.len() as u64;
    assert(b.len() >= 9);
    assert(b[0] == k.0);
    assert(b.subrange(1, 9) =~= u64_le(n));
    lemma_u64_le_round_trip(n);
    assert(b.skip(9) =~= spec_encode_args(k.1) + Seq::<u8>::empty());
    lemma_args_round_trip(k.1, Seq::empty());
    assert(spec_decode_command_key(b) == Some((k.0, k.1)));
    assert((k.0, k.1) == k);
}

/// Round trip for whole records: decoding an encoded record yields
/// the record itself (the law behind [`ValueCodec`] for commands).
pub proof fn lemma_command_round_trip(v: CommandView)
    requires
        command_representable(v),
    ensures
        spec_decode_command(spec_encode_command(v)) == Some(v),
{
    let b = spec_encode_command(v);
    let n = v.args.len() as u64;
    let opt = spec_encode_opt_dir(v.current_dir);
    assert(b.len() >= 9);
    assert(b[0] == v.executable);
    assert(b.subrange(1, 9) =~= u64_le(n));
    lemma_u64_le_round_trip(n);
    assert(b.skip(9) =~= spec_encode_args(v.args) + opt);
    lemma_args_round_trip(v.args, opt);
    match v.current_dir {
        None => {
            assert(opt[0] == 0);
            assert(opt.skip(1) =~= Seq::<u8>::empty());
        },
        Some(s) => {
            assert(opt[0] == 1);
            assert(opt.skip(1) =~= spec_encode_str(s) + Seq::<u8>::empty());
            lemma_str_round_trip(s, Seq::empty());
        },
    }
}

/// Builds the canonical key bytes for the given discriminant and
/// argument strings. Serialization of in-memory values never fails.
fn encode_key_bytes(executable: u8, args: &Vec<String>) -> (r: Vec<u8>)
    ensures
        r@ == spec_encode_command_key((executable, args.deep_view())),
        args_representable(args.deep_view()),
{
    let mut out: Vec<u8> = Vec::new();
    out.push(executable);
    push_u64_le(&mut out, args.len() as u64);
    let ghost head = seq![executable] + u64_le(args.len() as u64);
    proof {
        assert(out@ =~= head);
    }
    let mut j: usize = 0;
    while j < args.len()
        invariant
            j <= args@.len(),
            out@ == head + spec_encode_args(args.deep_view().take(j as int)),
            forall|m: int| 0 <= m < j ==> str_representable(#[trigger] args.deep_view()[m]),
        decreases args@.len() - j,
    {
        let ghost pre = out@;
        push_str_encoded(&mut out, &args[j]);
        proof {
            assert(args.deep_view()[j as int] == args@[j as int]@);
            lemma_encode_args_take(args.deep_view(), j as int);
            assert(out@ =~= head + spec_encode_args(args.deep_view().take(j as int + 1)));
        }
        j = j + 1;
    }
    proof {
        assert(args.deep_view().take(args@.len() as int) =~= args.deep_view());
    }
    out
}

/// Parses `count` framed strings starting at offset 9 of `data`; on
/// success returns them with the offset just past the last one.
fn read_args(data: &[u8], count: u64) -> (r: Result<(Vec<String>, usize), Error>)
    requires
        9 <= data@.len(),
    ensures
        match r {
            Ok(p) => {
                &&& spec_decode_args(data@.skip(9), count as nat) == Some(
                    (p.0.deep_view(), data@.skip(p.1 as int)),
                )
                &&& 9 <= p.1 <= data@.len()
            },
            Err(e) => {
                &&& e == Error::DecodingError
                &&& spec_decode_args(data@.skip(9), count as nat) is None
            },
        },
{
    let mut args: Vec<String> = Vec::new();
    let mut pos: usize = 9;
    let mut i: u64 = 0;
    proof {
        assert(args.deep_view() =~= Seq::<Seq<char>>::empty());
        let x = spec_decode_args(data@.skip(9), count as nat);
        if x is Some {
            assert(args.deep_view() + x->Some_0.0 =~= x->Some_0.0);
        }
    }
    while i < count
        invariant
            9 <= pos <= data@.len(),
            i <= count,
            spec_decode_args(data@.skip(9), count as nat) == (match spec_decode_args(
                data@.skip(pos as int),
                (count - i) as nat,
            ) {
                Some(p) => Some(((args.deep_view() + p.0), p.1)),
                None => None::<(Seq<Seq<char>>, Seq<u8>)>,
            }),
        decreases count - i,
    {
        match read_str(data, pos) {
            Ok(p) => {
                let ghost pre_args = args.deep_view();
                let ghost c = (count - i) as nat;
                proof {
                    let b = data@.skip(pos as int);
                    let after = data@.skip(p.1 as int);
                    assert(spec_decode_str(b) == Some((p.0@, after)));
                    assert(spec_decode_args(b, c) == (match spec_decode_args(
                        after,
                        (c - 1) as nat,
                    ) {
                        Some(q) => Some((seq![p.0@] + q.0, q.1)),
                        None => None::<(Seq<Seq<char>>, Seq<u8>)>,
                    }));
                }
                let new_pos = p.1;
                args.push(p.0);
                proof {
                    assert(args.deep_view() =~= pre_args.push(args@[args@.len() - 1]@));
                    let after = data@.skip(new_pos as int);
                    let y = spec_decode_args(after, (c - 1) as nat);
                    if y is Some {
                        assert(pre_args + (seq![args@[args@.len() - 1]@] + y->Some_0.0) =~= (
                        args.deep_view() + y->Some_0.0));
                    }
                }
                pos = new_pos;
                i = i + 1;
            },
            Err(_) => {
                proof {
                    let b = data@.skip(pos as int);
                    assert(spec_decode_args(b, (count - i) as nat) is None);
                }
                return Err(Error::DecodingError);
            },
        }
    }
    proof {
        let b = data@.skip(pos as int);
        assert(spec_decode_args(b, 0) == Some((Seq::<Seq<char>>::empty(), b)));
        assert(args.deep_view() + Seq::<Seq<char>>::empty() =~= args.deep_view());
    }
    Ok((args, pos))
}

/// Parses complete key bytes into a logical key, refusing truncated,
/// malformed, or trailing bytes.
fn decode_key_bytes(data: &[u8]) -> (r: Result<(u8, Vec<String>), Error>)
    ensures
        match r {
            Ok(k) => spec_decode_command_key(data@) == Some(k.deep_view()),
            Err(e) => e == Error::DecodingError && spec_decode_command_key(data@) is None,
        },
{
    if data.len() < 9 {
        return Err(Error::DecodingError);
    }
    let d: u8 = data[0];
    let count: u64 = read_u64_le(data, 1);
    proof {
        assert(data@.subrange(1, 9) == data@.subrange(1int, 1int + 8));
    }
    match read_args(data, count) {
        Ok(p) => {
            let (args, pos) = p;
            if pos == data.len() {
                proof {
                    assert(data@.skip(pos as int) =~= Seq::<u8>::empty());
                }
                Ok((d, args))
            } else {
                proof {
                    assert(data@.skip(pos as int).len() > 0);
                }
                Err(Error::DecodingError)
            }
        },
        Err(e) => Err(e),
    }
}

/// Builds the canonical value bytes of a whole command.
fn encode_value_bytes(cmd: &Command) -> (r: Vec<u8>)
    ensures
        r@ == spec_encode_command(cmd@),
        command_representable(cmd@),
{
    let mut out = encode_key_bytes(cmd.executable, &cmd.args);
    match &cmd.current_dir {
        None => {
            out.push(0);
            proof {
                assert(out@ =~= spec_encode_command(cmd@));
            }
        },
        Some(s) => {
            out.push(1);
            push_str_encoded(&mut out, s);
            proof {
                assert(out@ =~= spec_encode_command(cmd@));
            }
        },
    }
    out
}

/// Parses complete value bytes into a command, refusing truncated,
/// malformed, or trailing bytes.
fn decode_value_bytes(data: &[u8]) -> (r: Result<Command, Error>)
    ensures
        match r {
            Ok(rec) => spec_decode_command(data@) == Some(rec@),
            Err(e) => e == Error::DecodingError && spec_decode_command(data@) is None,
        },
{
    if data.len() < 9 {
        return Err(Error::DecodingError);
    }
    let d: u8 = data[0];
    let count: u64 = read_u64_le(data, 1);
    proof {
        assert(data@.subrange(1, 9) == data@.subrange(1int, 1int + 8));
    }
    let parsed = match read_args(data, count) {
        Ok(p) => p,
        Err(e) => {
            return Err(e);
        },
    };
    let (args, pos) = parsed;
    let ghost rest = data@.skip(pos as int);
    if pos >= data.len() {
        proof {
            assert(rest.len() == 0);
        }
        return Err(Error::DecodingError);
    }
    let tag: u8 = data[pos];
    proof {
        assert(rest[0] == data@[pos as int]);
        assert(rest.skip(1) =~= data@.skip(pos as int + 1));
    }
    if tag == 0 {
        if pos + 1 == data.len() {
            proof {
                assert(rest.skip(1).len() == 0);
            }
            Ok(Command { executable: d, args, current_dir: None })
        } else {
            Err(Error::DecodingError)
        }
    } else if tag == 1 {
        match read_str(data, pos + 1) {
            Ok(p) => {
                let (s, end) = p;
                if end == data.len() {
                    proof {
                        assert(data@.skip(end as int).len() == 0);
                    }
                    Ok(Command { executable: d, args, current_dir: Some(s) })
                } else {
                    Err(Error::DecodingError)
                }
            },
            Err(e) => Err(e),
        }
    } else {
        Err(Error::DecodingError)
    }
}

impl KeyCodec for Command {
    /// The logical key: the discriminant and the argument strings.
    type KeyType = (u8, Vec<String>);

    open spec fn spec_encode_key(k: (u8, Seq<Seq<char>>)) -> Seq<u8> {
        spec_encode_command_key(k)
    }

    open spec fn spec_decode_key(b: Seq<u8>) -> Option<(u8, Seq<Seq<char>>)> {
        spec_decode_command_key(b)
    }

    open spec fn key_representable(k: (u8, Seq<Seq<char>>)) -> bool {
        args_representable(k.1)
    }

    open spec fn spec_key(&self) -> (u8, Seq<Seq<char>>) {
        (self.executable, self.args.deep_view())
    }

    proof fn lemma_key_round_trip(k: (u8, Seq<Seq<char>>)) {
        lemma_command_key_round_trip(k);
    }

    fn encode_key(k: &(u8, Vec<String>)) -> (r: Result<EncodedKey<Self>, Error>) {
        let bytes = encode_key_bytes(k.0, &k.1);
        Ok(EncodedKey::from_vec(bytes))
    }

    fn decode_key(data: &EncodedKey<Self>) -> (r: Result<(u8, Vec<String>), Error>) {
        decode_key_bytes(data.as_slice())
    }

    fn key(&self) -> (r: Result<EncodedKey<Self>, Error>) {
        let bytes = encode_key_bytes(self.executable, &self.args);
        Ok(EncodedKey::from_vec(bytes))
    }
}

impl ValueCodec for Command {
    open spec fn spec_encode(v: CommandView) -> Seq<u8> {
        spec_encode_command(v)
    }

    open spec fn spec_decode(b: Seq<u8>) -> Option<CommandView> {
        spec_decode_command(b)
    }

    open spec fn value_representable(v: CommandView) -> bool {
        command_representable(v)
    }

    proof fn lemma_value_round_trip(v: CommandView) {
        lemma_command_round_trip(v);
    }

    fn encode(&self) -> (r: Result<Vec<u8>, Error>) {
        Ok(encode_value_bytes(self))
    }

    fn decode(data: &[u8]) -> (r: Result<Self, Error>) {
        decode_value_bytes(data)
    }
}

} // verus!
