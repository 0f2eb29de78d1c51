//! The serverbound packet that carries a signed chat command.

use vstd::prelude::*;
use vstd::utf8::encode_utf8;
use crate::codec::{
    encode_i64_be, encode_string, encode_var_int, lemma_i64_be_round_trip, lemma_string_round_trip,
    lemma_subrange_split, lemma_var_int_round_trip, read_bytes, read_fixed_bitset, read_i64_be, read_string_bounded, read_u8, spec_bytes,
    spec_fixed_bitset, spec_i64_be, spec_string_bounded, spec_u8, spec_var_int, ReadingError, VarInt,
    lemma_bytes_prefix, lemma_fixed_bitset_prefix, lemma_i64_be_prefix, lemma_string_bounded_prefix,
    lemma_u8_prefix, lemma_var_int_prefix,
};

verus! {

/// The longest command, in bytes.
pub const MAX_COMMAND_LENGTH: usize = 32767;

/// The longest argument name, in bytes.
pub const MAX_ARGUMENT_NAME_LENGTH: usize = 16;

/// The length of an argument signature, in bytes.
pub const SIGNATURE_LENGTH: usize = 256;

/// The most argument signatures a packet may carry.
pub const MAX_ARGUMENT_SIGNATURES: usize = 8;

/// The number of bits of the acknowledged-messages bit set.
pub const ACKNOWLEDGED_BITS: usize = 20;

/// The signature of one argument of the command.
#[derive(Debug)]
pub struct ArgumentSignaturesEntry {
    pub name: String,
    pub signature: Vec<u8>,
}

/// A signed chat command, as the client sends it.
pub struct SChatCommandSigned {
    pub command: String,
    pub timestamp: i64,
    pub salt: i64,
    pub argument_signatures: Vec<ArgumentSignaturesEntry>,
    pub message_count: VarInt,
    pub acknowledged: Vec<u8>,
    pub checksum: u8,
}

/// The contents of an `ArgumentSignaturesEntry`.
pub struct ArgumentSignatureView {
    pub name: Seq<char>,
    pub signature: Seq<u8>,
}

/// The contents of an `SChatCommandSigned`.
pub struct ChatCommandView {
    pub command: Seq<char>,
    pub timestamp: int,
    pub salt: int,
    pub argument_signatures: Seq<ArgumentSignatureView>,
    pub message_count: int,
    pub acknowledged: Seq<u8>,
    pub checksum: u8,
}

impl View for ArgumentSignaturesEntry {
    type V = ArgumentSignatureView;

    open spec fn view(&self) -> ArgumentSignatureView {
        ArgumentSignatureView { name: self.name@, signature: self.signature@ }
    }
}

impl View for SChatCommandSigned {
    type V = ChatCommandView;

    open spec fn view(&self) -> ChatCommandView {
        ChatCommandView {
            command: self.command@,
            timestamp: self.timestamp as int,
            salt: self.salt as int,
            argument_signatures: self.argument_signatures@.map_values(
                |e: ArgumentSignaturesEntry| e@,
            ),
            message_count: self.message_count.0 as int,
            acknowledged: self.acknowledged@,
            checksum: self.checksum,
        }
    }
}

/// One argument signature at `pos`: a name of at most 16 bytes, then 256
/// signature bytes.
pub open spec fn spec_argument_signature(s: Seq<u8>, pos: int) -> Result<(ArgumentSignatureView, int), ReadingError> {
    match spec_string_bounded(s, pos, MAX_ARGUMENT_NAME_LENGTH as int) {
        Err(e) => Err(e),
        Ok((name, p)) => match spec_bytes(s, p, SIGNATURE_LENGTH as int) {
            Err(e) => Err(e),
            Ok((signature, end)) => Ok((ArgumentSignatureView { name, signature }, end)),
        },
    }
}

/// `n` argument signatures one after the other from `pos` on.
pub open spec fn spec_argument_signatures_n(s: Seq<u8>, pos: int, n: nat) -> Result<(Seq<ArgumentSignatureView>, int), ReadingError>
    decreases n,
{
    if n == 0 {
        Ok((Seq::empty(), pos))
    } else {
        match spec_argument_signatures_n(s, pos, (n - 1) as nat) {
            Err(e) => Err(e),
            Ok((entries, p)) => match spec_argument_signature(s, p) {
                Err(e) => Err(e),
                Ok((entry, end)) => Ok((entries.push(entry), end)),
            },
        }
    }
}

/// The list of argument signatures at `pos`: a `VarInt` count of at most 8,
/// then the signatures.
pub open spec fn spec_argument_signatures(s: Seq<u8>, pos: int) -> Result<(Seq<ArgumentSignatureView>, int), ReadingError> {
    match spec_var_int(s, pos) {
        Err(e) => Err(e),
        Ok((n, p)) => if n < 0 || n > MAX_ARGUMENT_SIGNATURES {
            Err(ReadingError::TooLarge)
        } else {
            spec_argument_signatures_n(s, p, n as nat)
        },
    }
}

/// The packet that the bytes of `s` start with, and the number of bytes it
/// takes: the command, the timestamp and the salt, the argument signatures,
/// the message count, the acknowledged bit set and the checksum, in this order.
pub open spec fn spec_chat_command(s: Seq<u8>) -> Result<(ChatCommandView, int), ReadingError> {
    match spec_string_bounded(s, 0, MAX_COMMAND_LENGTH as int) {
        Err(e) => Err(e),
        Ok((command, p1)) => match spec_i64_be(s, p1) {
            Err(e) => Err(e),
            Ok((timestamp, p2)) => match spec_i64_be(s, p2) {
                Err(e) => Err(e),
                Ok((salt, p3)) => match spec_argument_signatures(s, p3) {
                    Err(e) => Err(e),
                    Ok((argument_signatures, p4)) => match spec_var_int(s, p4) {
                        Err(e) => Err(e),
                        Ok((message_count, p5)) => match spec_fixed_bitset(s, p5, ACKNOWLEDGED_BITS as int) {
                            Err(e) => Err(e),
                            Ok((acknowledged, p6)) => match spec_u8(s, p6) {
                                Err(e) => Err(e),
                                Ok((checksum, end)) => Ok((
                                    ChatCommandView {
                                        command,
                                        timestamp,
                                        salt,
                                        argument_signatures,
                                        message_count,
                                        acknowledged,
                                        checksum,
                                    },
                                    end,
                                )),
                            },
                        },
                    },
                },
            },
        },
    }
}

fn read_argument_signature(data: &[u8], pos: usize) -> (r: Result<(ArgumentSignaturesEntry, usize), ReadingError>)
    requires
        pos <= data@.len(),
    ensures
        match r {
            Ok((v, end)) => spec_argument_signature(data@, pos as int) == Ok::<(ArgumentSignatureView, int), ReadingError>((v@, end as int))
                && end <= data@.len(),
            Err(e) => spec_argument_signature(data@, pos as int) == Err::<(ArgumentSignatureView, int), ReadingError>(e),
        },
{
    let (name, p) = match read_string_bounded(data, pos, MAX_ARGUMENT_NAME_LENGTH) {
        Ok(x) => x,
        Err(e) => return Err(e),
    };
    let (signature, end) = match read_bytes(data, p, SIGNATURE_LENGTH) {
        Ok(x) => x,
        Err(e) => return Err(e),
    };
    Ok((ArgumentSignaturesEntry { name, signature }, end))
}

fn read_argument_signatures(data: &[u8], pos: usize) -> (r: Result<(Vec<ArgumentSignaturesEntry>, usize), ReadingError>)
    requires
        pos <= data@.len(),
    ensures
        match r {
            Ok((v, end)) => spec_argument_signatures(data@, pos as int) == Ok::<(Seq<ArgumentSignatureView>, int), ReadingError>((v@.map_values(|e: ArgumentSignaturesEntry| e@), end as int))
                && end <= data@.len(),
            Err(e) => spec_argument_signatures(data@, pos as int) == Err::<(Seq<ArgumentSignatureView>, int), ReadingError>(e),
        },
{
    let (n, p) = match VarInt::decode(data, pos) {
        Ok(x) => x,
        Err(e) => return Err(e),
    };
    if n.0 < 0 || n.0 as usize > MAX_ARGUMENT_SIGNATURES {
        return Err(ReadingError::TooLarge);
    }
    let count = n.0 as usize;
    let mut entries: Vec<ArgumentSignaturesEntry> = Vec::new();
    let mut cur = p;
    let mut i: usize = 0;
    assert(entries@.map_values(|e: ArgumentSignaturesEntry| e@) =~= Seq::<ArgumentSignatureView>::empty());
    while i < count
        invariant
            count <= MAX_ARGUMENT_SIGNATURES,
            spec_argument_signatures(data@, pos as int) == spec_argument_signatures_n(data@, p as int, count as nat),
            i <= count,
            cur <= data@.len(),
            spec_argument_signatures_n(data@, p as int, i as nat) == Ok::<(Seq<ArgumentSignatureView>, int), ReadingError>((entries@.map_values(|e: ArgumentSignaturesEntry| e@), cur as int)),
        decreases count - i,
    {
        match read_argument_signature(data, cur) {
            Ok((entry, end)) => {
                let ghost before = entries@;
                entries.push(entry);
                proof {
                    assert(entries@.map_values(|e: ArgumentSignaturesEntry| e@) =~= before.map_values(|e: ArgumentSignaturesEntry| e@).push(entry@));
                }
                cur = end;
                i = i + 1;
            },
            Err(e) => {
                proof {
                    assert(spec_argument_signatures_n(data@, p as int, (i + 1) as nat) == Err::<(Seq<ArgumentSignatureView>, int), ReadingError>(e));
                    lemma_argument_signatures_error_persists(data@, p as int, (i + 1) as nat, count as nat);
                }
                return Err(e);
            },
        }
    }
    Ok((entries, cur))
}

proof fn lemma_argument_signatures_error_persists(s: Seq<u8>, pos: int, i: nat, n: nat)
    requires
        i <= n,
        spec_argument_signatures_n(s, pos, i) is Err,
    ensures
        spec_argument_signatures_n(s, pos, n) == spec_argument_signatures_n(s, pos, i),
    decreases n - i,
{
    if i < n {
        lemma_argument_signatures_error_persists(s, pos, i, (n - 1) as nat);
    }
}

impl SChatCommandSigned {
    /// Reads the packet from the start of `data`, and gives back with it the
    /// number of bytes it took. Bytes after the packet are left unread.
    pub fn read(data: &[u8]) -> (r: Result<(SChatCommandSigned, usize), ReadingError>)
        ensures
            match r {
                Ok((packet, end)) => spec_chat_command(data@) == Ok::<(ChatCommandView, int), ReadingError>((packet@, end as int))
                    && end <= data@.len(),
                Err(e) => spec_chat_command(data@) == Err::<(ChatCommandView, int), ReadingError>(e),
            },
    {
        let (command, p1) = match read_string_bounded(data, 0, MAX_COMMAND_LENGTH) {
            Ok(x) => x,
            Err(e) => return Err(e),
        };
        let (timestamp, p2) = match read_i64_be(data, p1) {
            Ok(x) => x,
            Err(e) => return Err(e),
        };
        let (salt, p3) = match read_i64_be(data, p2) {
            Ok(x) => x,
            Err(e) => return Err(e),
        };
        let (argument_signatures, p4) = match read_argument_signatures(data, p3) {
            Ok(x) => x,
            Err(e) => return Err(e),
        };
        let (message_count, p5) = match VarInt::decode(data, p4) {
            Ok(x) => x,
            Err(e) => return Err(e),
        };
        let (acknowledged, p6) = match read_fixed_bitset(data, p5, ACKNOWLEDGED_BITS) {
            Ok(x) => x,
            Err(e) => return Err(e),
        };
        let (checksum, end) = match read_u8(data, p6) {
            Ok(x) => x,
            Err(e) => return Err(e),
        };
        Ok((
            SChatCommandSigned {
                command,
                timestamp,
                salt,
                argument_signatures,
                message_count,
                acknowledged,
                checksum,
            },
            end,
        ))
    }
}

proof fn lemma_argument_signature_prefix(s: Seq<u8>, t: Seq<u8>, pos: int)
    requires
        0 <= pos,
    ensures
        spec_argument_signature(s, pos) matches Ok((v, end)) ==> spec_argument_signature(s + t, pos)
            == spec_argument_signature(s, pos) && pos <= end <= s.len(),
{
    lemma_string_bounded_prefix(s, t, pos, MAX_ARGUMENT_NAME_LENGTH as int);
    if let Ok((name, q)) = spec_string_bounded(s, pos, MAX_ARGUMENT_NAME_LENGTH as int) {
        lemma_bytes_prefix(s, t, q, SIGNATURE_LENGTH as int);
    }
}

proof fn lemma_argument_signatures_n_prefix(s: Seq<u8>, t: Seq<u8>, pos: int, n: nat)
    requires
        0 <= pos <= s.len(),
    ensures
        spec_argument_signatures_n(s, pos, n) matches Ok((v, end)) ==> spec_argument_signatures_n(s + t, pos, n)
            == spec_argument_signatures_n(s, pos, n) && pos <= end <= s.len(),
    decreases n,
{
    if n > 0 {
        lemma_argument_signatures_n_prefix(s, t, pos, (n - 1) as nat);
        if let Ok((entries, p)) = spec_argument_signatures_n(s, pos, (n - 1) as nat) {
            lemma_argument_signature_prefix(s, t, p);
        }
    }
}

/// Reading is unaffected by what follows the packet: when some bytes hold a
/// whole packet, the same bytes followed by any others give the same packet,
/// which takes the same bytes, no more than were there.
pub proof fn lemma_read_ignores_trailing_bytes(s: Seq<u8>, t: Seq<u8>)
    ensures
        spec_chat_command(s) matches Ok((v, end)) ==> spec_chat_command(s + t) == spec_chat_command(s)
            && end <= s.len(),
{
    lemma_string_bounded_prefix(s, t, 0, MAX_COMMAND_LENGTH as int);
    if let Ok((command, p1)) = spec_string_bounded(s, 0, MAX_COMMAND_LENGTH as int) {
        lemma_i64_be_prefix(s, t, p1);
        if let Ok((timestamp, p2)) = spec_i64_be(s, p1) {
            lemma_i64_be_prefix(s, t, p2);
            if let Ok((salt, p3)) = spec_i64_be(s, p2) {
                lemma_var_int_prefix(s, t, p3);
                if let Ok((n, q)) = spec_var_int(s, p3) {
                    if 0 <= n <= MAX_ARGUMENT_SIGNATURES {
                        lemma_argument_signatures_n_prefix(s, t, q, n as nat);
                    }
                }
                if let Ok((argument_signatures, p4)) = spec_argument_signatures(s, p3) {
                    lemma_var_int_prefix(s, t, p4);
                    if let Ok((message_count, p5)) = spec_var_int(s, p4) {
                        lemma_fixed_bitset_prefix(s, t, p5, ACKNOWLEDGED_BITS as int);
                        if let Ok((acknowledged, p6)) = spec_fixed_bitset(s, p5, ACKNOWLEDGED_BITS as int) {
                            lemma_u8_prefix(s, t, p6);
                        }
                    }
                }
            }
        }
    }
}

/// The bytes of one argument signature: its name as a string, then its
/// signature bytes.
pub open spec fn encode_argument_signature(e: ArgumentSignatureView) -> Seq<u8> {
    encode_string(e.name) + e.signature
}

/// The bytes of argument signatures one after the other.
pub open spec fn encode_argument_signatures_n(entries: Seq<ArgumentSignatureView>) -> Seq<u8>
    decreases entries.len(),
{
    if entries.len() == 0 {
        Seq::empty()
    } else {
        encode_argument_signatures_n(entries.drop_last()) + encode_argument_signature(entries.last())
    }
}

/// The bytes of a packet, its fields in the order in which they are read.
pub open spec fn encode_chat_command(p: ChatCommandView) -> Seq<u8> {
    encode_string(p.command) + encode_i64_be(p.timestamp) + encode_i64_be(p.salt) + encode_var_int(
        p.argument_signatures.len() as int,
    ) + encode_argument_signatures_n(p.argument_signatures) + encode_var_int(p.message_count)
        + p.acknowledged + seq![p.checksum]
}

/// An argument signature that reading accepts: a name of at most 16 bytes
/// and a signature of 256 bytes.
pub open spec fn argument_signature_fits(e: ArgumentSignatureView) -> bool {
    &&& encode_utf8(e.name).len() <= MAX_ARGUMENT_NAME_LENGTH
    &&& e.signature.len() == SIGNATURE_LENGTH
}

/// A packet that can be written so that reading accepts it: each field fits
/// the limits that reading checks and the integer type that holds it.
pub open spec fn chat_command_fits(p: ChatCommandView) -> bool {
    &&& encode_utf8(p.command).len() <= MAX_COMMAND_LENGTH
    &&& i64::MIN <= p.timestamp <= i64::MAX
    &&& i64::MIN <= p.salt <= i64::MAX
    &&& p.argument_signatures.len() <= MAX_ARGUMENT_SIGNATURES
    &&& forall|i: int|
        0 <= i < p.argument_signatures.len() ==> argument_signature_fits(
            #[trigger] p.argument_signatures[i],
        )
    &&& i32::MIN <= p.message_count <= i32::MAX
    &&& p.acknowledged.len() == (ACKNOWLEDGED_BITS + 7) / 8
}

proof fn lemma_argument_signature_round_trip(s: Seq<u8>, pos: int, e: ArgumentSignatureView)
    requires
        0 <= pos,
        argument_signature_fits(e),
        pos + encode_argument_signature(e).len() <= s.len(),
        s.subrange(pos, pos + encode_argument_signature(e).len()) == encode_argument_signature(e),
    ensures
        spec_argument_signature(s, pos) == Ok::<(ArgumentSignatureView, int), ReadingError>(
            (e, pos + encode_argument_signature(e).len()),
        ),
{
    lemma_subrange_split(s, pos, encode_string(e.name), e.signature);
    lemma_string_round_trip(s, pos, e.name, MAX_ARGUMENT_NAME_LENGTH as int);
}

proof fn lemma_argument_signatures_n_round_trip(s: Seq<u8>, pos: int, entries: Seq<ArgumentSignatureView>)
    requires
        0 <= pos,
        forall|i: int| 0 <= i < entries.len() ==> argument_signature_fits(#[trigger] entries[i]),
        pos + encode_argument_signatures_n(entries).len() <= s.len(),
        s.subrange(pos, pos + encode_argument_signatures_n(entries).len())
            == encode_argument_signatures_n(entries),
    ensures
        spec_argument_signatures_n(s, pos, entries.len()) == Ok::<(Seq<ArgumentSignatureView>, int), ReadingError>(
            (entries, pos + encode_argument_signatures_n(entries).len()),
        ),
    decreases entries.len(),
{
    if entries.len() > 0 {
        let front = entries.drop_last();
        let last = entries.last();
        lemma_subrange_split(s, pos, encode_argument_signatures_n(front), encode_argument_signature(last));
        assert forall|i: int| 0 <= i < front.len() implies argument_signature_fits(#[trigger] front[i]) by {
            assert(front[i] == entries[i]);
        }
        lemma_argument_signatures_n_round_trip(s, pos, front);
        assert(argument_signature_fits(entries[entries.len() - 1]));
        let mid = pos + encode_argument_signatures_n(front).len();
        lemma_argument_signature_round_trip(s, mid, last);
        assert(front.push(last) == entries);
        assert(front.len() == (entries.len() - 1) as nat);
        assert(spec_argument_signatures_n(s, pos, front.len()) == Ok::<(Seq<ArgumentSignatureView>, int), ReadingError>((front, mid)));
        assert(encode_argument_signatures_n(entries) == encode_argument_signatures_n(front) + encode_argument_signature(last));
    } else {
        assert(entries =~= Seq::<ArgumentSignatureView>::empty());
    }
}

/// Reading gives back what was written: the bytes of a packet whose fields
/// fit, followed by any bytes, are read as that packet, which takes exactly
/// its own bytes; and no bytes that stop short of the end of a written
/// packet hold a packet.
pub proof fn lemma_read_gives_back_written(p: ChatCommandView, t: Seq<u8>)
    requires
        chat_command_fits(p),
    ensures
        spec_chat_command(encode_chat_command(p) + t) == Ok::<(ChatCommandView, int), ReadingError>(
            (p, encode_chat_command(p).len() as int),
        ),
        forall|k: int|
            0 <= k < encode_chat_command(p).len() ==> #[trigger] spec_chat_command(
                encode_chat_command(p).take(k),
            ) is Err,
{
    lemma_written_packet_is_read(p, t);
    assert forall|k: int| 0 <= k < encode_chat_command(p).len() implies #[trigger] spec_chat_command(
        encode_chat_command(p).take(k),
    ) is Err by {
        let b = encode_chat_command(p);
        lemma_read_ignores_trailing_bytes(b.take(k), b.skip(k));
        assert(b.take(k) + b.skip(k) == b);
        lemma_written_packet_is_read(p, Seq::empty());
        assert(b + Seq::<u8>::empty() == b);
    }
}

#[verifier::rlimit(50)]
proof fn lemma_written_packet_is_read(p: ChatCommandView, t: Seq<u8>)
    requires
        chat_command_fits(p),
    ensures
        spec_chat_command(encode_chat_command(p) + t) == Ok::<(ChatCommandView, int), ReadingError>(
            (p, encode_chat_command(p).len() as int),
        ),
{
    let c = encode_string(p.command);
    let ts = encode_i64_be(p.timestamp);
    let sa = encode_i64_be(p.salt);
    let cnt = encode_var_int(p.argument_signatures.len() as int);
    let sigs = encode_argument_signatures_n(p.argument_signatures);
    let mc = encode_var_int(p.message_count);
    let ack = p.acknowledged;
    let chk = seq![p.checksum];
    let b1 = c + ts;
    let b2 = b1 + sa;
    let b3 = b2 + cnt;
    let b4 = b3 + sigs;
    let b5 = b4 + mc;
    let b6 = b5 + ack;
    let b = b6 + chk;
    assert(b == encode_chat_command(p));
    let s = b + t;
    assert(s.subrange(0, b.len() as int) == b);
    lemma_subrange_split(s, 0, b6, chk);
    lemma_subrange_split(s, 0, b5, ack);
    lemma_subrange_split(s, 0, b4, mc);
    lemma_subrange_split(s, 0, b3, sigs);
    lemma_subrange_split(s, 0, b2, cnt);
    lemma_subrange_split(s, 0, b1, sa);
    lemma_subrange_split(s, 0, c, ts);
    let p1 = c.len() as int;
    let p2 = b1.len() as int;
    let p3 = b2.len() as int;
    let q = b3.len() as int;
    let p4 = b4.len() as int;
    let p5 = b5.len() as int;
    let p6 = b6.len() as int;
    lemma_string_round_trip(s, 0, p.command, MAX_COMMAND_LENGTH as int);
    assert(spec_string_bounded(s, 0, MAX_COMMAND_LENGTH as int) == Ok::<(Seq<char>, int), ReadingError>((p.command, p1)));
    lemma_i64_be_round_trip(s, p1, p.timestamp);
    assert(spec_i64_be(s, p1) == Ok::<(int, int), ReadingError>((p.timestamp, p2)));
    lemma_i64_be_round_trip(s, p2, p.salt);
    assert(spec_i64_be(s, p2) == Ok::<(int, int), ReadingError>((p.salt, p3)));
    lemma_var_int_round_trip(s, p3, p.argument_signatures.len() as int);
    assert(spec_var_int(s, p3) == Ok::<(int, int), ReadingError>((p.argument_signatures.len() as int, q)));
    lemma_argument_signatures_n_round_trip(s, q, p.argument_signatures);
    assert(spec_argument_signatures(s, p3) == Ok::<(Seq<ArgumentSignatureView>, int), ReadingError>((p.argument_signatures, p4)));
    lemma_var_int_round_trip(s, p4, p.message_count);
    assert(spec_var_int(s, p4) == Ok::<(int, int), ReadingError>((p.message_count, p5)));
    assert(spec_fixed_bitset(s, p5, ACKNOWLEDGED_BITS as int) == Ok::<(Seq<u8>, int), ReadingError>((p.acknowledged, p6)));
    assert(s.subrange(p6, p6 + 1)[0] == s[p6]);
    assert(spec_u8(s, p6) == Ok::<(u8, int), ReadingError>((p.checksum, p6 + 1)));
}

} // verus!
