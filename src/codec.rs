//! The wire format of [`Status`] and [`Command`].
//!
//! A number is a little-endian base-128 varint: seven bits per byte, lowest first, the high bit
//! set on every byte but the last. Only the shortest form of a number is accepted. An optional
//! value is a byte 0 (absent) or 1 followed by the value. A byte string is its length followed by
//! its bytes. A record is its fields in order. A command is the number of its kind (`Wait` 0,
//! `Sync` 1, `Write` 2, `Swap` 3) followed by its fields. This is the layout that postcard gives
//! these types, so either end of a link may be built on it.
use vstd::prelude::*;
use crate::protocol::{Bytes, Command, CommandView, Status, StatusView, UpdateStatus, UpdateView};

verus! {

/// What goes wrong when encoding or decoding a message.
#[derive(PartialEq, Eq, Structural, Debug, Clone, Copy)]
pub enum CodecError {
    /// The message does not fit in the room given.
    BufferFull,
    /// The bytes are not a message.
    Malformed,
}

/// The varint encoding of `v`.
pub open spec fn varint(v: nat) -> Seq<u8>
    decreases v,
{
    if v < 128 {
        seq![v as u8]
    } else {
        seq![(v % 128 + 128) as u8] + varint(v / 128)
    }
}

/// The number that a run of varint bytes stands for, lowest group first.
pub open spec fn varint_value(s: Seq<u8>) -> nat
    decreases s.len(),
{
    if s.len() == 0 {
        0
    } else {
        (s[0] % 128) as nat + 128 * varint_value(s.drop_first())
    }
}

/// Whether `s` is the shortest varint form of some number: every byte but the last has its high
/// bit set, the last has it clear, and the last is not zero unless it is the only one.
pub open spec fn varint_shaped(s: Seq<u8>) -> bool {
    &&& s.len() >= 1
    &&& forall|i: int| 0 <= i < s.len() - 1 ==> s[i] >= 128
    &&& s[s.len() - 1] < 128
    &&& s.len() > 1 ==> s[s.len() - 1] != 0
}

/// Whether `buf` holds `piece` starting at `pos`.
pub open spec fn has_at(buf: Seq<u8>, pos: int, piece: Seq<u8>) -> bool {
    &&& 0 <= pos
    &&& pos + piece.len() <= buf.len()
    &&& buf.subrange(pos, pos + piece.len()) == piece
}

proof fn lemma_div_mod_128(a: nat, w: nat)
    requires
        a < 128,
    ensures
        (a + 128 * w) % 128 == a,
        (a + 128 * w) / 128 == w,
{
    assert((a + 128 * w) % 128 == a && (a + 128 * w) / 128 == w) by (nonlinear_arith)
        requires
            a < 128,
    ;
}

/// The encoding of `v` has the shortest varint form and stands for `v`.
proof fn lemma_varint_shape(v: nat)
    ensures
        varint_shaped(varint(v)),
        varint_value(varint(v)) == v,
        v < 128 <==> varint(v).len() == 1,
    decreases v,
{
    if v >= 128 {
        let tail = varint(v / 128);
        lemma_varint_shape(v / 128);
        let s = varint(v);
        assert(s.drop_first() =~= tail);
        assert(s[0] == (v % 128 + 128) as u8);
        assert(s[0] % 128 == v % 128);
        assert forall|i: int| 0 <= i < s.len() - 1 implies s[i] >= 128 by {
            if i > 0 {
                assert(s[i] == tail[i - 1]);
            }
        }
        assert(s[s.len() - 1] == tail[tail.len() - 1]);
        assert(v == v % 128 + 128 * (v / 128)) by (nonlinear_arith);
        assert(varint_value(s) == (s[0] % 128) as nat + 128 * varint_value(tail));
    } else {
        assert(varint(v).drop_first() =~= Seq::<u8>::empty());
        assert(varint_value(Seq::<u8>::empty()) == 0);
    }
}

/// A run in the shortest varint form that stands for more than one group is at least 128.
proof fn lemma_shaped_value_positive(s: Seq<u8>)
    requires
        varint_shaped(s),
        s.len() > 1,
    ensures
        varint_value(s) >= 128,
    decreases s.len(),
{
    let t = s.drop_first();
    assert(varint_shaped(t)) by {
        assert forall|i: int| 0 <= i < t.len() - 1 implies t[i] >= 128 by {
            assert(t[i] == s[i + 1]);
        }
        assert(t[t.len() - 1] == s[s.len() - 1]);
    }
    if t.len() > 1 {
        lemma_shaped_value_positive(t);
    } else {
        assert(t[0] == s[s.len() - 1]);
        assert(varint_value(t.drop_first()) == 0);
    }
}

/// A run in the shortest varint form is the encoding of the number it stands for.
proof fn lemma_shaped_is_varint(s: Seq<u8>)
    requires
        varint_shaped(s),
    ensures
        varint(varint_value(s)) == s,
    decreases s.len(),
{
    let v = varint_value(s);
    let t = s.drop_first();
    if s.len() == 1 {
        assert(varint_value(t) == 0);
        assert(varint(v) =~= s);
    } else {
        assert(varint_shaped(t)) by {
            assert forall|i: int| 0 <= i < t.len() - 1 implies t[i] >= 128 by {
                assert(t[i] == s[i + 1]);
            }
            assert(t[t.len() - 1] == s[s.len() - 1]);
        }
        lemma_shaped_is_varint(t);
        lemma_shaped_value_positive(s);
        lemma_div_mod_128((s[0] % 128) as nat, varint_value(t));
        assert(s[0] >= 128);
        assert(varint(v) =~= s);
    }
}

/// Where two varints start at one place, they are the same number.
pub proof fn lemma_varint_unique(buf: Seq<u8>, pos: int, a: nat, b: nat)
    requires
        has_at(buf, pos, varint(a)),
        has_at(buf, pos, varint(b)),
    ensures
        a == b,
    decreases a,
{
    let sa = varint(a);
    let sb = varint(b);
    assert(sa[0] == buf[pos]);
    assert(sb[0] == buf[pos]);
    if a >= 128 && b >= 128 {
        assert(varint(a / 128) =~= sa.subrange(1, sa.len() as int));
        assert(varint(b / 128) =~= sb.subrange(1, sb.len() as int));
        assert(has_at(buf, pos + 1, varint(a / 128))) by {
            assert(buf.subrange(pos + 1, pos + 1 + varint(a / 128).len()) =~= varint(a / 128));
        }
        assert(has_at(buf, pos + 1, varint(b / 128))) by {
            assert(buf.subrange(pos + 1, pos + 1 + varint(b / 128).len()) =~= varint(b / 128));
        }
        lemma_varint_unique(buf, pos + 1, a / 128, b / 128);
        assert(a == a % 128 + 128 * (a / 128)) by (nonlinear_arith);
        assert(b == b % 128 + 128 * (b / 128)) by (nonlinear_arith);
    }
}

/// The varint of a 32-bit number is at most five bytes long.
proof fn lemma_varint_len(v: nat, k: nat, bound: nat)
    requires
        v < bound,
        bound == pow128(k),
        k >= 1,
    ensures
        varint(v).len() <= k,
    decreases k,
{
    if v >= 128 {
        if k == 1 {
            assert(pow128(1) == 128 * pow128(0));
        } else {
            let kk = (k - 1) as nat;
            assert(pow128(k) == 128 * pow128(kk));
            assert(v / 128 < pow128(kk)) by (nonlinear_arith)
                requires
                    v < 128 * pow128(kk),
            ;
            lemma_varint_len(v / 128, kk, pow128(kk));
        }
    }
}

/// 128 to the power `k`.
pub open spec fn pow128(k: nat) -> nat
    decreases k,
{
    if k == 0 {
        1
    } else {
        128 * pow128((k - 1) as nat)
    }
}

proof fn lemma_pow128_values()
    ensures
        pow128(4) == 268435456,
        pow128(5) == 34359738368,
{
    assert(pow128(0) == 1);
    assert(pow128(1) == 128);
    assert(pow128(2) == 16384);
    assert(pow128(3) == 2097152);
    assert(pow128(4) == 268435456);
    assert(pow128(5) == 34359738368);
}

proof fn lemma_u32_varint_len(v: u32)
    ensures
        varint(v as nat).len() <= 5,
{
    lemma_pow128_values();
    lemma_varint_len(v as nat, 5, pow128(5));
}

/// Appends the varint of `v`.
fn push_varint(out: &mut Vec<u8>, v: u32)
    ensures
        final(out)@ == old(out)@ + varint(v as nat),
{
    let mut cur: u32 = v;
    while cur >= 128
        invariant
            out@ + varint(cur as nat) == old(out)@ + varint(v as nat),
        decreases cur,
    {
        let byte: u8 = (cur % 128 + 128) as u8;
        proof {
            assert(varint(cur as nat) == seq![byte] + varint((cur / 128) as nat));
            assert(out@.push(byte) + varint((cur / 128) as nat) =~= out@ + varint(cur as nat));
        }
        out.push(byte);
        cur = cur / 128;
    }
    proof {
        assert(varint(cur as nat) == seq![cur as u8]);
    }
    out.push(cur as u8);
    proof {
        assert(out@ =~= old(out)@ + varint(v as nat));
    }
}

/// Reads the varint of a 32-bit number at `pos`, giving the number and the position after it.
fn read_varint(buf: &[u8], pos: usize) -> (r: Option<(u32, usize)>)
    ensures
        r matches Some((v, end)) ==> end == pos + varint(v as nat).len() && has_at(
            buf@,
            pos as int,
            varint(v as nat),
        ),
        forall|v: u32| #[trigger] has_at(buf@, pos as int, varint(v as nat)) ==> r is Some,
{
    proof {
        assert forall|v: u32| #[trigger] has_at(buf@, pos as int, varint(v as nat)) implies pos
            < buf@.len() by {
            lemma_varint_shape(v as nat);
        }
    }
    if pos >= buf.len() {
        return None;
    }
    // Find the last byte: the first one with its high bit clear.
    let mut k: usize = 0;
    while k < 4 && k < buf.len() - pos && buf[pos + k] >= 128
        invariant
            k <= 4,
            pos < buf@.len(),
            pos + k <= buf@.len(),
            forall|i: int| pos <= i < pos + k ==> buf@[i] >= 128,
        decreases 4 - k,
    {
        k = k + 1;
    }
    if pos + k >= buf.len() || buf[pos + k] >= 128 {
        proof {
            assert forall|v: u32| !has_at(buf@, pos as int, #[trigger] varint(v as nat)) by {
                if has_at(buf@, pos as int, varint(v as nat)) {
                    let s = varint(v as nat);
                    lemma_varint_shape(v as nat);
                    lemma_u32_varint_len(v);
                    assert forall|i: int| 0 <= i < s.len() implies s[i] == buf@[pos + i] by {
                        assert(buf@.subrange(pos as int, pos + s.len())[i] == buf@[pos + i]);
                    }
                    if s.len() - 1 < k {
                        assert(buf@[pos + s.len() - 1] >= 128);
                    } else if s.len() - 1 == k {
                    } else {
                        assert(k < 4);
                        assert(s[k as int] >= 128);
                    }
                }
            }
        }
        return None;
    }
    let end = pos + k + 1;
    let seg = Ghost(buf@.subrange(pos as int, end as int));
    // The value, from the last group back to the first.
    let mut value: u64 = 0;
    let mut j: usize = end;
    while j > pos
        invariant
            pos < end <= buf@.len(),
            end - pos <= 5,
            pos <= j <= end,
            seg@ == buf@.subrange(pos as int, end as int),
            value as nat == varint_value(buf@.subrange(j as int, end as int)),
            value < pow128((end - j) as nat),
        decreases j,
    {
        let b = buf[j - 1];
        proof {
            let t = buf@.subrange(j - 1, end as int);
            assert(t.drop_first() =~= buf@.subrange(j as int, end as int));
            assert(pow128((end - j + 1) as nat) == 128 * pow128((end - j) as nat));
            lemma_pow128_values();
            assert(pow128((end - j) as nat) <= pow128(4)) by {
                lemma_pow128_mono((end - j) as nat, 4);
            }
            assert((b % 128) as u64 + 128 * value < 128 * pow128((end - j) as nat)) by (
            nonlinear_arith)
                requires
                    value < pow128((end - j) as nat),
                    b % 128 < 128,
            ;
        }
        value = (b % 128) as u64 + 128 * value;
        j = j - 1;
    }
    let last = buf[end - 1];
    if k > 0 && last == 0 {
        proof {
            assert forall|v: u32| !has_at(buf@, pos as int, #[trigger] varint(v as nat)) by {
                if has_at(buf@, pos as int, varint(v as nat)) {
                    lemma_read_varint_complete(buf@, pos as int, k as int, v);
                }
            }
        }
        return None;
    }
    if value > u32::MAX as u64 {
        proof {
            assert forall|v: u32| !has_at(buf@, pos as int, #[trigger] varint(v as nat)) by {
                if has_at(buf@, pos as int, varint(v as nat)) {
                    lemma_read_varint_complete(buf@, pos as int, k as int, v);
                    lemma_varint_shape(v as nat);
                    assert(buf@.subrange(pos as int, end as int) == varint(v as nat));
                }
            }
        }
        return None;
    }
    proof {
        let s = buf@.subrange(pos as int, end as int);
        assert forall|i: int| 0 <= i < s.len() - 1 implies s[i] >= 128 by {
            assert(s[i] == buf@[pos + i]);
        }
        assert(varint_shaped(s));
        lemma_shaped_is_varint(s);
    }
    Some((value as u32, end))
}

proof fn lemma_pow128_mono(a: nat, b: nat)
    requires
        a <= b,
    ensures
        pow128(a) <= pow128(b),
    decreases b,
{
    if a < b {
        lemma_pow128_mono(a, (b - 1) as nat);
        assert(pow128(b) == 128 * pow128((b - 1) as nat));
    }
}

/// Where the varint of `v` starts at `pos` and the first `k` bytes there have their high bit set
/// and the next has it clear, the varint is those `k + 1` bytes.
proof fn lemma_read_varint_complete(buf: Seq<u8>, pos: int, k: int, v: u32)
    requires
        has_at(buf, pos, varint(v as nat)),
        0 <= k,
        pos + k < buf.len(),
        forall|i: int| pos <= i < pos + k ==> buf[i] >= 128,
        buf[pos + k] < 128,
    ensures
        varint(v as nat).len() == k + 1,
        buf.subrange(pos, pos + k + 1) == varint(v as nat),
        k > 0 ==> buf[pos + k] != 0,
{
    let s = varint(v as nat);
    lemma_varint_shape(v as nat);
    assert forall|i: int| 0 <= i < s.len() implies s[i] == buf[pos + i] by {
        assert(buf.subrange(pos, pos + s.len())[i] == buf[pos + i]);
    }
    if s.len() - 1 < k {
        assert(buf[pos + s.len() - 1] >= 128);
    } else if s.len() - 1 > k {
        assert(s[k] >= 128);
    }
}


/// An optional number: 0, or 1 and the number.
pub open spec fn option_bytes(o: Option<u32>) -> Seq<u8> {
    match o {
        None => seq![0u8],
        Some(v) => seq![1u8] + varint(v as nat),
    }
}

/// A byte string: its length, then its bytes.
pub open spec fn byte_string(b: Seq<u8>) -> Seq<u8> {
    varint(b.len()) + b
}

/// An optional update record: 0, or 1, the version and the offset.
pub open spec fn update_bytes(u: Option<UpdateView>) -> Seq<u8> {
    match u {
        None => seq![0u8],
        Some(u) => seq![1u8] + (byte_string(u.version) + varint(u.offset as nat)),
    }
}

/// The encoding of a status.
pub open spec fn status_bytes(s: StatusView) -> Seq<u8> {
    byte_string(s.version) + (option_bytes(s.mtu) + (option_bytes(s.correlation_id) + update_bytes(
        s.update,
    )))
}

/// The encoding of a command.
pub open spec fn command_bytes(c: CommandView) -> Seq<u8> {
    match c {
        CommandView::Wait { correlation_id, poll } => seq![0u8] + (option_bytes(correlation_id)
            + option_bytes(poll)),
        CommandView::Sync { version, correlation_id, poll } => seq![1u8] + (byte_string(version) + (
        option_bytes(correlation_id) + option_bytes(poll))),
        CommandView::Write { version, correlation_id, offset, data } => seq![2u8] + (byte_string(
            version,
        ) + (option_bytes(correlation_id) + (varint(offset as nat) + byte_string(data)))),
        CommandView::Swap { version, correlation_id, checksum } => seq![3u8] + (byte_string(version)
            + (option_bytes(correlation_id) + byte_string(checksum))),
    }
}

/// Whether every byte string of a status is short enough for its length to be sent.
pub open spec fn status_fits(s: StatusView) -> bool {
    &&& s.version.len() <= u32::MAX
    &&& s.update matches Some(u) ==> u.version.len() <= u32::MAX
}

/// Whether every byte string of a command is short enough for its length to be sent.
pub open spec fn command_fits(c: CommandView) -> bool {
    match c {
        CommandView::Wait { .. } => true,
        CommandView::Sync { version, .. } => version.len() <= u32::MAX,
        CommandView::Write { version, data, .. } => version.len() <= u32::MAX && data.len()
            <= u32::MAX,
        CommandView::Swap { version, checksum, .. } => version.len() <= u32::MAX && checksum.len()
            <= u32::MAX,
    }
}

proof fn lemma_split(buf: Seq<u8>, pos: int, a: Seq<u8>, b: Seq<u8>)
    requires
        has_at(buf, pos, a + b),
    ensures
        has_at(buf, pos, a),
        has_at(buf, pos + a.len(), b),
{
    assert(buf.subrange(pos, pos + a.len()) =~= buf.subrange(pos, pos + (a + b).len()).subrange(
        0,
        a.len() as int,
    ));
    assert((a + b).subrange(0, a.len() as int) =~= a);
    assert(buf.subrange(pos + a.len(), pos + a.len() + b.len()) =~= buf.subrange(
        pos,
        pos + (a + b).len(),
    ).subrange(a.len() as int, (a + b).len() as int));
    assert((a + b).subrange(a.len() as int, (a + b).len() as int) =~= b);
}

proof fn lemma_join(buf: Seq<u8>, pos: int, a: Seq<u8>, b: Seq<u8>)
    requires
        has_at(buf, pos, a),
        has_at(buf, pos + a.len(), b),
    ensures
        has_at(buf, pos, a + b),
{
    assert(buf.subrange(pos, pos + (a + b).len()) =~= a + b) by {
        assert forall|i: int| 0 <= i < (a + b).len() implies buf.subrange(pos, pos + (a + b).len())[i]
            == (a + b)[i] by {
            if i < a.len() {
                assert(buf.subrange(pos, pos + a.len())[i] == buf[pos + i]);
            } else {
                assert(buf.subrange(pos + a.len(), pos + a.len() + b.len())[i - a.len()] == buf[pos
                    + i]);
            }
        }
    }
}

proof fn lemma_byte_at(buf: Seq<u8>, pos: int, a: Seq<u8>)
    requires
        has_at(buf, pos, a),
        a.len() >= 1,
    ensures
        buf[pos] == a[0],
{
    assert(buf.subrange(pos, pos + a.len())[0] == buf[pos]);
}

proof fn lemma_option_unique(buf: Seq<u8>, pos: int, a: Option<u32>, b: Option<u32>)
    requires
        has_at(buf, pos, option_bytes(a)),
        has_at(buf, pos, option_bytes(b)),
    ensures
        a == b,
{
    lemma_byte_at(buf, pos, option_bytes(a));
    lemma_byte_at(buf, pos, option_bytes(b));
    if a is Some && b is Some {
        lemma_split(buf, pos, seq![1u8], varint(a.unwrap() as nat));
        lemma_split(buf, pos, seq![1u8], varint(b.unwrap() as nat));
        lemma_varint_unique(buf, pos + 1, a.unwrap() as nat, b.unwrap() as nat);
    }
}

proof fn lemma_bytes_unique(buf: Seq<u8>, pos: int, a: Seq<u8>, b: Seq<u8>)
    requires
        has_at(buf, pos, byte_string(a)),
        has_at(buf, pos, byte_string(b)),
    ensures
        a == b,
        byte_string(a).len() == byte_string(b).len(),
{
    lemma_split(buf, pos, varint(a.len()), a);
    lemma_split(buf, pos, varint(b.len()), b);
    lemma_varint_unique(buf, pos, a.len(), b.len());
}

proof fn lemma_update_unique(buf: Seq<u8>, pos: int, a: Option<UpdateView>, b: Option<UpdateView>)
    requires
        has_at(buf, pos, update_bytes(a)),
        has_at(buf, pos, update_bytes(b)),
    ensures
        a == b,
{
    lemma_byte_at(buf, pos, update_bytes(a));
    lemma_byte_at(buf, pos, update_bytes(b));
    if a is Some && b is Some {
        let (ua, ub) = (a.unwrap(), b.unwrap());
        lemma_split(buf, pos, seq![1u8], byte_string(ua.version) + varint(ua.offset as nat));
        lemma_split(buf, pos, seq![1u8], byte_string(ub.version) + varint(ub.offset as nat));
        lemma_split(buf, pos + 1, byte_string(ua.version), varint(ua.offset as nat));
        lemma_split(buf, pos + 1, byte_string(ub.version), varint(ub.offset as nat));
        lemma_bytes_unique(buf, pos + 1, ua.version, ub.version);
        lemma_varint_unique(
            buf,
            pos + 1 + byte_string(ua.version).len(),
            ua.offset as nat,
            ub.offset as nat,
        );
    }
}

/// Two statuses whose encodings start at one place are the same status: decoding an encoded
/// status, whatever bytes follow it, gives that status back.
pub proof fn lemma_status_unique(buf: Seq<u8>, pos: int, a: StatusView, b: StatusView)
    requires
        has_at(buf, pos, status_bytes(a)),
        has_at(buf, pos, status_bytes(b)),
    ensures
        a == b,
{
    let pa = option_bytes(a.correlation_id) + update_bytes(a.update);
    let pb = option_bytes(b.correlation_id) + update_bytes(b.update);
    lemma_split(buf, pos, byte_string(a.version), option_bytes(a.mtu) + pa);
    lemma_split(buf, pos, byte_string(b.version), option_bytes(b.mtu) + pb);
    lemma_bytes_unique(buf, pos, a.version, b.version);
    let at1 = pos + byte_string(a.version).len();
    lemma_split(buf, at1, option_bytes(a.mtu), pa);
    lemma_split(buf, at1, option_bytes(b.mtu), pb);
    lemma_option_unique(buf, at1, a.mtu, b.mtu);
    let at2 = at1 + option_bytes(a.mtu).len();
    lemma_split(buf, at2, option_bytes(a.correlation_id), update_bytes(a.update));
    lemma_split(buf, at2, option_bytes(b.correlation_id), update_bytes(b.update));
    lemma_option_unique(buf, at2, a.correlation_id, b.correlation_id);
    let at3 = at2 + option_bytes(a.correlation_id).len();
    lemma_update_unique(buf, at3, a.update, b.update);
}

/// Two commands whose encodings start at one place are the same command: decoding an encoded
/// command, whatever bytes follow it, gives that command back.
pub proof fn lemma_command_unique(buf: Seq<u8>, pos: int, a: CommandView, b: CommandView)
    requires
        has_at(buf, pos, command_bytes(a)),
        has_at(buf, pos, command_bytes(b)),
    ensures
        a == b,
{
    lemma_byte_at(buf, pos, command_bytes(a));
    lemma_byte_at(buf, pos, command_bytes(b));
    let p = pos + 1;
    match (a, b) {
        (
            CommandView::Wait { correlation_id: ca, poll: qa },
            CommandView::Wait { correlation_id: cb, poll: qb },
        ) => {
            lemma_split(buf, pos, seq![0u8], option_bytes(ca) + option_bytes(qa));
            lemma_split(buf, pos, seq![0u8], option_bytes(cb) + option_bytes(qb));
            lemma_split(buf, p, option_bytes(ca), option_bytes(qa));
            lemma_split(buf, p, option_bytes(cb), option_bytes(qb));
            lemma_option_unique(buf, p, ca, cb);
            lemma_option_unique(buf, p + option_bytes(ca).len(), qa, qb);
        },
        (
            CommandView::Sync { version: va, correlation_id: ca, poll: qa },
            CommandView::Sync { version: vb, correlation_id: cb, poll: qb },
        ) => {
            let ra = option_bytes(ca) + option_bytes(qa);
            let rb = option_bytes(cb) + option_bytes(qb);
            lemma_split(buf, pos, seq![1u8], byte_string(va) + ra);
            lemma_split(buf, pos, seq![1u8], byte_string(vb) + rb);
            lemma_split(buf, p, byte_string(va), ra);
            lemma_split(buf, p, byte_string(vb), rb);
            lemma_bytes_unique(buf, p, va, vb);
            let at1 = p + byte_string(va).len();
            lemma_split(buf, at1, option_bytes(ca), option_bytes(qa));
            lemma_split(buf, at1, option_bytes(cb), option_bytes(qb));
            lemma_option_unique(buf, at1, ca, cb);
            lemma_option_unique(buf, at1 + option_bytes(ca).len(), qa, qb);
        },
        (
            CommandView::Write { version: va, correlation_id: ca, offset: oa, data: da },
            CommandView::Write { version: vb, correlation_id: cb, offset: ob, data: db },
        ) => {
            let ta = varint(oa as nat) + byte_string(da);
            let tb = varint(ob as nat) + byte_string(db);
            let ra = option_bytes(ca) + ta;
            let rb = option_bytes(cb) + tb;
            lemma_split(buf, pos, seq![2u8], byte_string(va) + ra);
            lemma_split(buf, pos, seq![2u8], byte_string(vb) + rb);
            lemma_split(buf, p, byte_string(va), ra);
            lemma_split(buf, p, byte_string(vb), rb);
            lemma_bytes_unique(buf, p, va, vb);
            let at1 = p + byte_string(va).len();
            lemma_split(buf, at1, option_bytes(ca), ta);
            lemma_split(buf, at1, option_bytes(cb), tb);
            lemma_option_unique(buf, at1, ca, cb);
            let at2 = at1 + option_bytes(ca).len();
            lemma_split(buf, at2, varint(oa as nat), byte_string(da));
            lemma_split(buf, at2, varint(ob as nat), byte_string(db));
            lemma_varint_unique(buf, at2, oa as nat, ob as nat);
            lemma_bytes_unique(buf, at2 + varint(oa as nat).len(), da, db);
        },
        (
            CommandView::Swap { version: va, correlation_id: ca, checksum: ka },
            CommandView::Swap { version: vb, correlation_id: cb, checksum: kb },
        ) => {
            let ra = option_bytes(ca) + byte_string(ka);
            let rb = option_bytes(cb) + byte_string(kb);
            lemma_split(buf, pos, seq![3u8], byte_string(va) + ra);
            lemma_split(buf, pos, seq![3u8], byte_string(vb) + rb);
            lemma_split(buf, p, byte_string(va), ra);
            lemma_split(buf, p, byte_string(vb), rb);
            lemma_bytes_unique(buf, p, va, vb);
            let at1 = p + byte_string(va).len();
            lemma_split(buf, at1, option_bytes(ca), byte_string(ka));
            lemma_split(buf, at1, option_bytes(cb), byte_string(kb));
            lemma_option_unique(buf, at1, ca, cb);
            lemma_bytes_unique(buf, at1 + option_bytes(ca).len(), ka, kb);
        },
        _ => {},
    }
}


proof fn lemma_status_parts(buf: Seq<u8>, pos: int, x: StatusView)
    requires
        has_at(buf, pos, status_bytes(x)),
    ensures
        has_at(buf, pos, byte_string(x.version)),
        has_at(buf, pos + byte_string(x.version).len(), option_bytes(x.mtu)),
        has_at(
            buf,
            pos + byte_string(x.version).len() + option_bytes(x.mtu).len(),
            option_bytes(x.correlation_id),
        ),
        has_at(
            buf,
            pos + byte_string(x.version).len() + option_bytes(x.mtu).len() + option_bytes(
                x.correlation_id,
            ).len(),
            update_bytes(x.update),
        ),
{
    let at1 = pos + byte_string(x.version).len();
    let at2 = at1 + option_bytes(x.mtu).len();
    lemma_split(
        buf,
        pos,
        byte_string(x.version),
        option_bytes(x.mtu) + (option_bytes(x.correlation_id) + update_bytes(x.update)),
    );
    lemma_split(
        buf,
        at1,
        option_bytes(x.mtu),
        option_bytes(x.correlation_id) + update_bytes(x.update),
    );
    lemma_split(buf, at2, option_bytes(x.correlation_id), update_bytes(x.update));
}

proof fn lemma_update_parts(buf: Seq<u8>, pos: int, u: UpdateView)
    requires
        has_at(buf, pos, update_bytes(Some(u))),
    ensures
        buf[pos] == 1,
        has_at(buf, pos + 1, byte_string(u.version)),
        has_at(buf, pos + 1 + byte_string(u.version).len(), varint(u.offset as nat)),
{
    lemma_byte_at(buf, pos, update_bytes(Some(u)));
    lemma_split(buf, pos, seq![1u8], byte_string(u.version) + varint(u.offset as nat));
    lemma_split(buf, pos + 1, byte_string(u.version), varint(u.offset as nat));
}

/// Appends an optional number.
fn push_option(out: &mut Vec<u8>, o: Option<u32>)
    ensures
        final(out)@ == old(out)@ + option_bytes(o),
{
    match o {
        None => {
            out.push(0);
            assert(out@ =~= old(out)@ + option_bytes(o));
        },
        Some(v) => {
            out.push(1);
            push_varint(out, v);
            assert(out@ =~= old(out)@ + option_bytes(o));
        },
    }
}

/// Appends a byte string.
fn push_bytes(out: &mut Vec<u8>, b: &[u8])
    requires
        b@.len() <= u32::MAX,
    ensures
        final(out)@ == old(out)@ + byte_string(b@),
{
    push_varint(out, b.len() as u32);
    let start = Ghost(out@);
    let mut i: usize = 0;
    while i < b.len()
        invariant
            i <= b@.len(),
            out@ == start@ + b@.subrange(0, i as int),
            start@ == old(out)@ + varint(b@.len()),
        decreases b@.len() - i,
    {
        out.push(b[i]);
        assert(b@.subrange(0, i + 1) =~= b@.subrange(0, i as int).push(b@[i as int]));
        i = i + 1;
    }
    assert(b@.subrange(0, i as int) =~= b@);
    assert(out@ =~= old(out)@ + byte_string(b@));
}

/// Appends the encoding of a status.
fn push_status(out: &mut Vec<u8>, s: &Status)
    requires
        status_fits(s@),
    ensures
        final(out)@ == old(out)@ + status_bytes(s@),
{
    push_bytes(out, s.version.as_slice());
    push_option(out, s.mtu);
    push_option(out, s.correlation_id);
    let before = Ghost(out@);
    match &s.update {
        None => {
            out.push(0);
        },
        Some(u) => {
            out.push(1);
            push_bytes(out, u.version.as_slice());
            push_varint(out, u.offset);
        },
    }
    assert(out@ =~= before@ + update_bytes(s@.update));
    assert(out@ =~= old(out)@ + status_bytes(s@));
}

/// Appends the encoding of a command.
fn push_command(out: &mut Vec<u8>, c: &Command)
    requires
        command_fits(c@),
    ensures
        final(out)@ == old(out)@ + command_bytes(c@),
{
    match c {
        Command::Wait { correlation_id, poll } => {
            out.push(0);
            push_option(out, *correlation_id);
            push_option(out, *poll);
        },
        Command::Sync { version, correlation_id, poll } => {
            out.push(1);
            push_bytes(out, version.as_slice());
            push_option(out, *correlation_id);
            push_option(out, *poll);
        },
        Command::Write { version, correlation_id, offset, data } => {
            out.push(2);
            push_bytes(out, version.as_slice());
            push_option(out, *correlation_id);
            push_varint(out, *offset);
            push_bytes(out, data.as_slice());
        },
        Command::Swap { version, correlation_id, checksum } => {
            out.push(3);
            push_bytes(out, version.as_slice());
            push_option(out, *correlation_id);
            push_bytes(out, checksum.as_slice());
        },
    }
    assert(out@ =~= old(out)@ + command_bytes(c@));
}

/// The encoding of `status`, where it is at most `cap` bytes long.
pub fn encode_status(status: &Status, cap: usize) -> (r: Result<Vec<u8>, CodecError>)
    ensures
        r is Ok <==> status_fits(status@) && status_bytes(status@).len() <= cap,
        r matches Ok(b) ==> b@ == status_bytes(status@),
        r matches Err(e) ==> e == CodecError::BufferFull,
{
    let fits = status.version.len() <= u32::MAX as usize && match &status.update {
        Some(u) => u.version.len() <= u32::MAX as usize,
        None => true,
    };
    if !fits {
        return Err(CodecError::BufferFull);
    }
    let mut out: Vec<u8> = Vec::new();
    push_status(&mut out, status);
    assert(out@ =~= status_bytes(status@));
    if out.len() > cap {
        Err(CodecError::BufferFull)
    } else {
        Ok(out)
    }
}

/// The encoding of `command`, where it is at most `cap` bytes long.
pub fn encode_command(command: &Command, cap: usize) -> (r: Result<Vec<u8>, CodecError>)
    ensures
        r is Ok <==> command_fits(command@) && command_bytes(command@).len() <= cap,
        r matches Ok(b) ==> b@ == command_bytes(command@),
        r matches Err(e) ==> e == CodecError::BufferFull,
{
    let max = u32::MAX as usize;
    let fits = match command {
        Command::Wait { .. } => true,
        Command::Sync { version, .. } => version.len() <= max,
        Command::Write { version, data, .. } => version.len() <= max && data.len() <= max,
        Command::Swap { version, checksum, .. } => version.len() <= max && checksum.len() <= max,
    };
    if !fits {
        return Err(CodecError::BufferFull);
    }
    let mut out: Vec<u8> = Vec::new();
    push_command(&mut out, command);
    assert(out@ =~= command_bytes(command@));
    if out.len() > cap {
        Err(CodecError::BufferFull)
    } else {
        Ok(out)
    }
}

/// Reads an optional number at `pos`.
fn read_option(buf: &[u8], pos: usize) -> (r: Option<(Option<u32>, usize)>)
    ensures
        r matches Some((o, end)) ==> end == pos + option_bytes(o).len() && has_at(
            buf@,
            pos as int,
            option_bytes(o),
        ),
        forall|o: Option<u32>| #[trigger] has_at(buf@, pos as int, option_bytes(o)) ==> r is Some,
{
    proof {
        assert forall|o: Option<u32>| #[trigger] has_at(buf@, pos as int, option_bytes(o)) implies pos
            < buf@.len() && (buf@[pos as int] == 0 || buf@[pos as int] == 1) by {
            lemma_byte_at(buf@, pos as int, option_bytes(o));
        }
    }
    if pos >= buf.len() {
        return None;
    }
    if buf[pos] == 0 {
        proof {
            assert(buf@.subrange(pos as int, pos + 1) =~= option_bytes(None));
        }
        Some((None, pos + 1))
    } else if buf[pos] == 1 {
        proof {
            assert forall|o: Option<u32>| #[trigger] has_at(buf@, pos as int, option_bytes(o)) implies (
            o is Some && has_at(buf@, pos + 1, varint(o.unwrap() as nat))) by {
                lemma_byte_at(buf@, pos as int, option_bytes(o));
                if o is Some {
                    lemma_split(buf@, pos as int, seq![1u8], varint(o.unwrap() as nat));
                }
            }
        }
        match read_varint(buf, pos + 1) {
            Some((v, end)) => {
                proof {
                    assert(buf@.subrange(pos as int, pos + 1) =~= seq![1u8]);
                    lemma_join(buf@, pos as int, seq![1u8], varint(v as nat));
                }
                Some((Some(v), end))
            },
            None => None,
        }
    } else {
        None
    }
}

/// Reads a byte string at `pos`.
fn read_bytes<'a>(buf: &'a [u8], pos: usize) -> (r: Option<(&'a [u8], usize)>)
    ensures
        r matches Some((b, end)) ==> b@.len() <= u32::MAX && end == pos + byte_string(b@).len()
            && has_at(buf@, pos as int, byte_string(b@)),
        forall|b: Seq<u8>|
            b.len() <= u32::MAX && #[trigger] has_at(buf@, pos as int, byte_string(b)) ==> r is Some,
{
    proof {
        assert forall|b: Seq<u8>|
            b.len() <= u32::MAX && #[trigger] has_at(buf@, pos as int, byte_string(b)) implies has_at(
            buf@,
            pos as int,
            varint(b.len() as u32 as nat),
        ) && has_at(buf@, pos + varint(b.len()).len(), b) by {
            lemma_split(buf@, pos as int, varint(b.len()), b);
        }
    }
    match read_varint(buf, pos) {
        None => None,
        Some((len, start)) => {
            if len as usize > buf.len() - start {
                proof {
                    assert forall|b: Seq<u8>|
                        b.len() <= u32::MAX && #[trigger] has_at(
                            buf@,
                            pos as int,
                            byte_string(b),
                        ) implies false by {
                        lemma_varint_unique(buf@, pos as int, len as nat, b.len());
                    }
                }
                None
            } else {
                let end = start + len as usize;
                let b = vstd::slice::slice_subrange(buf, start, end);
                proof {
                    lemma_join(buf@, pos as int, varint(len as nat), b@);
                }
                Some((b, end))
            }
        },
    }
}


/// Reads a status at `pos`.
fn read_status<'a>(buf: &'a [u8], pos: usize) -> (r: Option<(Status<'a>, usize)>)
    ensures
        r matches Some((s, end)) ==> status_fits(s@) && end == pos + status_bytes(s@).len()
            && has_at(buf@, pos as int, status_bytes(s@)),
        forall|x: StatusView|
            status_fits(x) && #[trigger] has_at(buf@, pos as int, status_bytes(x)) ==> r is Some,
{
    let (version, at1) = match read_bytes(buf, pos) {
        Some(v) => v,
        None => {
            proof {
                assert forall|x: StatusView|
                    status_fits(x) && #[trigger] has_at(
                        buf@,
                        pos as int,
                        status_bytes(x),
                    ) implies false by {
                    lemma_status_parts(buf@, pos as int, x);
                }
            }
            return None;
        },
    };
    let (mtu, at2) = match read_option(buf, at1) {
        Some(v) => v,
        None => {
            proof {
                assert forall|x: StatusView|
                    status_fits(x) && #[trigger] has_at(
                        buf@,
                        pos as int,
                        status_bytes(x),
                    ) implies false by {
                    lemma_status_parts(buf@, pos as int, x);
                    lemma_bytes_unique(buf@, pos as int, x.version, version@);
                }
            }
            return None;
        },
    };
    let (correlation_id, at3) = match read_option(buf, at2) {
        Some(v) => v,
        None => {
            proof {
                assert forall|x: StatusView|
                    status_fits(x) && #[trigger] has_at(
                        buf@,
                        pos as int,
                        status_bytes(x),
                    ) implies false by {
                    lemma_status_parts(buf@, pos as int, x);
                    lemma_bytes_unique(buf@, pos as int, x.version, version@);
                    lemma_option_unique(buf@, at1 as int, x.mtu, mtu);
                }
            }
            return None;
        },
    };
    proof {
        assert forall|x: StatusView|
            status_fits(x) && #[trigger] has_at(buf@, pos as int, status_bytes(x)) implies has_at(
            buf@,
            at3 as int,
            update_bytes(x.update),
        ) by {
            lemma_status_parts(buf@, pos as int, x);
            lemma_bytes_unique(buf@, pos as int, x.version, version@);
            lemma_option_unique(buf@, at1 as int, x.mtu, mtu);
            lemma_option_unique(buf@, at2 as int, x.correlation_id, correlation_id);
        }
        assert forall|x: StatusView|
            status_fits(x) && #[trigger] has_at(buf@, pos as int, status_bytes(x)) implies at3
            < buf@.len() && (buf@[at3 as int] == 0 || buf@[at3 as int] == 1) by {
            lemma_byte_at(buf@, at3 as int, update_bytes(x.update));
        }
    }
    if at3 >= buf.len() {
        return None;
    }
    let tag = buf[at3];
    let (update, end) = if tag == 0 {
        proof {
            assert(buf@.subrange(at3 as int, at3 + 1) =~= update_bytes(None));
        }
        (None, at3 + 1)
    } else if tag == 1 {
        proof {
            assert forall|x: StatusView|
                status_fits(x) && #[trigger] has_at(buf@, pos as int, status_bytes(x)) implies (
            x.update is Some && has_at(buf@, at3 + 1, byte_string(x.update.unwrap().version))) by {
                lemma_byte_at(buf@, at3 as int, update_bytes(x.update));
                if x.update is Some {
                    lemma_update_parts(buf@, at3 as int, x.update.unwrap());
                }
            }
        }
        let (next_version, q1) = match read_bytes(buf, at3 + 1) {
            Some(v) => v,
            None => {
                return None;
            },
        };
        proof {
            assert forall|x: StatusView|
                status_fits(x) && #[trigger] has_at(buf@, pos as int, status_bytes(x)) implies has_at(
                buf@,
                q1 as int,
                varint(x.update.unwrap().offset as nat),
            ) by {
                lemma_update_parts(buf@, at3 as int, x.update.unwrap());
                lemma_bytes_unique(buf@, at3 + 1, x.update.unwrap().version, next_version@);
            }
        }
        let (offset, q2) = match read_varint(buf, q1) {
            Some(v) => v,
            None => {
                return None;
            },
        };
        let u = UpdateStatus { version: Bytes::new(next_version), offset };
        proof {
            assert(buf@.subrange(at3 as int, at3 + 1) =~= seq![1u8]);
            lemma_join(buf@, at3 + 1, byte_string(next_version@), varint(offset as nat));
            lemma_join(
                buf@,
                at3 as int,
                seq![1u8],
                byte_string(next_version@) + varint(offset as nat),
            );
            assert(update_bytes(Some(u@)) == seq![1u8] + (byte_string(next_version@) + varint(
                offset as nat,
            )));
        }
        (Some(u), q2)
    } else {
        return None;
    };
    let s = Status { version: Bytes::new(version), mtu, correlation_id, update };
    proof {
        let ub = update_bytes(s@.update);
        assert(has_at(buf@, at3 as int, ub));
        lemma_join(buf@, at2 as int, option_bytes(correlation_id), ub);
        lemma_join(buf@, at1 as int, option_bytes(mtu), option_bytes(correlation_id) + ub);
        lemma_join(
            buf@,
            pos as int,
            byte_string(version@),
            option_bytes(mtu) + (option_bytes(correlation_id) + ub),
        );
    }
    Some((s, end))
}

/// Reads a command at `pos`.
fn read_command<'a>(buf: &'a [u8], pos: usize) -> (r: Option<(Command<'a>, usize)>)
    ensures
        r matches Some((c, end)) ==> command_fits(c@) && end == pos + command_bytes(c@).len()
            && has_at(buf@, pos as int, command_bytes(c@)),
        forall|x: CommandView|
            command_fits(x) && #[trigger] has_at(buf@, pos as int, command_bytes(x)) ==> r is Some,
{
    proof {
        assert forall|x: CommandView| #[trigger] has_at(buf@, pos as int, command_bytes(x)) implies pos
            < buf@.len() && buf@[pos as int] <= 3 && command_tag_matches(x, buf@[pos as int])
            && has_at(buf@, pos + 1, command_body(x)) by {
            lemma_command_split(x);
            lemma_byte_at(buf@, pos as int, command_bytes(x));
            lemma_split(buf@, pos as int, seq![command_tag(x)], command_body(x));
        }
    }
    if pos >= buf.len() {
        return None;
    }
    let tag = buf[pos];
    let p = pos + 1;
    if tag > 3 {
        return None;
    }
    let (c, end) = if tag == 0 {
        let (correlation_id, at1) = match read_option(buf, p) {
            Some(v) => v,
            None => {
                proof {
                    assert forall|x: CommandView|
                        command_fits(x) && #[trigger] has_at(
                            buf@,
                            pos as int,
                            command_bytes(x),
                        ) implies false by {
                        lemma_command_split(x);
                        lemma_split(
                            buf@,
                            p as int,
                            option_bytes(x->Wait_correlation_id),
                            option_bytes(x->Wait_poll),
                        );
                    }
                }
                return None;
            },
        };
        let (poll, at2) = match read_option(buf, at1) {
            Some(v) => v,
            None => {
                proof {
                    assert forall|x: CommandView|
                        command_fits(x) && #[trigger] has_at(
                            buf@,
                            pos as int,
                            command_bytes(x),
                        ) implies false by {
                        lemma_command_split(x);
                        lemma_split(
                            buf@,
                            p as int,
                            option_bytes(x->Wait_correlation_id),
                            option_bytes(x->Wait_poll),
                        );
                        lemma_option_unique(buf@, p as int, x->Wait_correlation_id, correlation_id);
                    }
                }
                return None;
            },
        };
        let c = Command::Wait { correlation_id, poll };
        proof {
            lemma_join(buf@, p as int, option_bytes(correlation_id), option_bytes(poll));
        }
        (c, at2)
    } else if tag == 1 {
        let (version, at1) = match read_bytes(buf, p) {
            Some(v) => v,
            None => {
                proof {
                    assert forall|x: CommandView|
                        command_fits(x) && #[trigger] has_at(
                            buf@,
                            pos as int,
                            command_bytes(x),
                        ) implies false by {
                        lemma_sync_parts(buf@, p as int, x);
                    }
                }
                return None;
            },
        };
        let (correlation_id, at2) = match read_option(buf, at1) {
            Some(v) => v,
            None => {
                proof {
                    assert forall|x: CommandView|
                        command_fits(x) && #[trigger] has_at(
                            buf@,
                            pos as int,
                            command_bytes(x),
                        ) implies false by {
                        lemma_sync_parts(buf@, p as int, x);
                        lemma_bytes_unique(buf@, p as int, x->Sync_version, version@);
                    }
                }
                return None;
            },
        };
        let (poll, at3) = match read_option(buf, at2) {
            Some(v) => v,
            None => {
                proof {
                    assert forall|x: CommandView|
                        command_fits(x) && #[trigger] has_at(
                            buf@,
                            pos as int,
                            command_bytes(x),
                        ) implies false by {
                        lemma_sync_parts(buf@, p as int, x);
                        lemma_bytes_unique(buf@, p as int, x->Sync_version, version@);
                        lemma_option_unique(buf@, at1 as int, x->Sync_correlation_id, correlation_id);
                    }
                }
                return None;
            },
        };
        let c = Command::Sync { version: Bytes::new(version), correlation_id, poll };
        proof {
            lemma_join(buf@, at1 as int, option_bytes(correlation_id), option_bytes(poll));
            lemma_join(
                buf@,
                p as int,
                byte_string(version@),
                option_bytes(correlation_id) + option_bytes(poll),
            );
        }
        (c, at3)
    } else if tag == 2 {
        let (version, at1) = match read_bytes(buf, p) {
            Some(v) => v,
            None => {
                proof {
                    assert forall|x: CommandView|
                        command_fits(x) && #[trigger] has_at(
                            buf@,
                            pos as int,
                            command_bytes(x),
                        ) implies false by {
                        lemma_write_parts(buf@, p as int, x);
                    }
                }
                return None;
            },
        };
        let (correlation_id, at2) = match read_option(buf, at1) {
            Some(v) => v,
            None => {
                proof {
                    assert forall|x: CommandView|
                        command_fits(x) && #[trigger] has_at(
                            buf@,
                            pos as int,
                            command_bytes(x),
                        ) implies false by {
                        lemma_write_parts(buf@, p as int, x);
                        lemma_bytes_unique(buf@, p as int, x->Write_version, version@);
                    }
                }
                return None;
            },
        };
        let (offset, at3) = match read_varint(buf, at2) {
            Some(v) => v,
            None => {
                proof {
                    assert forall|x: CommandView|
                        command_fits(x) && #[trigger] has_at(
                            buf@,
                            pos as int,
                            command_bytes(x),
                        ) implies false by {
                        lemma_write_parts(buf@, p as int, x);
                        lemma_bytes_unique(buf@, p as int, x->Write_version, version@);
                        lemma_option_unique(buf@, at1 as int, x->Write_correlation_id, correlation_id);
                    }
                }
                return None;
            },
        };
        let (data, at4) = match read_bytes(buf, at3) {
            Some(v) => v,
            None => {
                proof {
                    assert forall|x: CommandView|
                        command_fits(x) && #[trigger] has_at(
                            buf@,
                            pos as int,
                            command_bytes(x),
                        ) implies false by {
                        lemma_write_parts(buf@, p as int, x);
                        lemma_bytes_unique(buf@, p as int, x->Write_version, version@);
                        lemma_option_unique(buf@, at1 as int, x->Write_correlation_id, correlation_id);
                        lemma_varint_unique(buf@, at2 as int, x->Write_offset as nat, offset as nat);
                    }
                }
                return None;
            },
        };
        let c = Command::Write {
            version: Bytes::new(version),
            correlation_id,
            offset,
            data: Bytes::new(data),
        };
        proof {
            let t = varint(offset as nat) + byte_string(data@);
            lemma_join(buf@, at2 as int, varint(offset as nat), byte_string(data@));
            lemma_join(buf@, at1 as int, option_bytes(correlation_id), t);
            lemma_join(buf@, p as int, byte_string(version@), option_bytes(correlation_id) + t);
        }
        (c, at4)
    } else {
        let (version, at1) = match read_bytes(buf, p) {
            Some(v) => v,
            None => {
                proof {
                    assert forall|x: CommandView|
                        command_fits(x) && #[trigger] has_at(
                            buf@,
                            pos as int,
                            command_bytes(x),
                        ) implies false by {
                        lemma_swap_parts(buf@, p as int, x);
                    }
                }
                return None;
            },
        };
        let (correlation_id, at2) = match read_option(buf, at1) {
            Some(v) => v,
            None => {
                proof {
                    assert forall|x: CommandView|
                        command_fits(x) && #[trigger] has_at(
                            buf@,
                            pos as int,
                            command_bytes(x),
                        ) implies false by {
                        lemma_swap_parts(buf@, p as int, x);
                        lemma_bytes_unique(buf@, p as int, x->Swap_version, version@);
                    }
                }
                return None;
            },
        };
        let (checksum, at3) = match read_bytes(buf, at2) {
            Some(v) => v,
            None => {
                proof {
                    assert forall|x: CommandView|
                        command_fits(x) && #[trigger] has_at(
                            buf@,
                            pos as int,
                            command_bytes(x),
                        ) implies false by {
                        lemma_swap_parts(buf@, p as int, x);
                        lemma_bytes_unique(buf@, p as int, x->Swap_version, version@);
                        lemma_option_unique(buf@, at1 as int, x->Swap_correlation_id, correlation_id);
                    }
                }
                return None;
            },
        };
        let c = Command::Swap {
            version: Bytes::new(version),
            correlation_id,
            checksum: Bytes::new(checksum),
        };
        proof {
            lemma_join(buf@, at1 as int, option_bytes(correlation_id), byte_string(checksum@));
            lemma_join(
                buf@,
                p as int,
                byte_string(version@),
                option_bytes(correlation_id) + byte_string(checksum@),
            );
        }
        (c, at3)
    };
    proof {
        lemma_command_split(c@);
        assert(buf@.subrange(pos as int, pos + 1) =~= seq![command_tag(c@)]);
        lemma_join(buf@, pos as int, seq![command_tag(c@)], command_body(c@));
        assert(command_bytes(c@) == seq![command_tag(c@)] + command_body(c@));
    }
    Some((c, end))
}

/// The first byte of a command's encoding: the number of its kind.
pub open spec fn command_tag(c: CommandView) -> u8 {
    match c {
        CommandView::Wait { .. } => 0,
        CommandView::Sync { .. } => 1,
        CommandView::Write { .. } => 2,
        CommandView::Swap { .. } => 3,
    }
}

/// What follows the first byte of a command's encoding.
pub open spec fn command_body(c: CommandView) -> Seq<u8> {
    command_bytes(c).drop_first()
}

proof fn lemma_command_split(x: CommandView)
    ensures
        command_bytes(x) == seq![command_tag(x)] + command_body(x),
        command_body(x) == match x {
            CommandView::Wait { correlation_id, poll } => option_bytes(correlation_id) + option_bytes(
                poll,
            ),
            CommandView::Sync { version, correlation_id, poll } => byte_string(version) + (
            option_bytes(correlation_id) + option_bytes(poll)),
            CommandView::Write { version, correlation_id, offset, data } => byte_string(version) + (
            option_bytes(correlation_id) + (varint(offset as nat) + byte_string(data))),
            CommandView::Swap { version, correlation_id, checksum } => byte_string(version) + (
            option_bytes(correlation_id) + byte_string(checksum)),
        },
{
    assert(command_bytes(x) =~= seq![command_tag(x)] + command_body(x));
    match x {
        CommandView::Wait { correlation_id, poll } => {
            assert(command_body(x) =~= option_bytes(correlation_id) + option_bytes(poll));
        },
        CommandView::Sync { version, correlation_id, poll } => {
            assert(command_body(x) =~= byte_string(version) + (option_bytes(correlation_id)
                + option_bytes(poll)));
        },
        CommandView::Write { version, correlation_id, offset, data } => {
            assert(command_body(x) =~= byte_string(version) + (option_bytes(correlation_id) + (
            varint(offset as nat) + byte_string(data))));
        },
        CommandView::Swap { version, correlation_id, checksum } => {
            assert(command_body(x) =~= byte_string(version) + (option_bytes(correlation_id)
                + byte_string(checksum)));
        },
    }
}

spec fn command_tag_matches(c: CommandView, tag: u8) -> bool {
    command_tag(c) == tag
}

proof fn lemma_sync_parts(buf: Seq<u8>, p: int, x: CommandView)
    requires
        x is Sync,
        has_at(buf, p, command_body(x)),
    ensures
        has_at(buf, p, byte_string(x->Sync_version)),
        has_at(buf, p + byte_string(x->Sync_version).len(), option_bytes(x->Sync_correlation_id)),
        has_at(
            buf,
            p + byte_string(x->Sync_version).len() + option_bytes(x->Sync_correlation_id).len(),
            option_bytes(x->Sync_poll),
        ),
{
    let r = option_bytes(x->Sync_correlation_id) + option_bytes(x->Sync_poll);
    assert(command_body(x) =~= byte_string(x->Sync_version) + r);
    lemma_split(buf, p, byte_string(x->Sync_version), r);
    lemma_split(
        buf,
        p + byte_string(x->Sync_version).len(),
        option_bytes(x->Sync_correlation_id),
        option_bytes(x->Sync_poll),
    );
}

proof fn lemma_write_parts(buf: Seq<u8>, p: int, x: CommandView)
    requires
        x is Write,
        has_at(buf, p, command_body(x)),
    ensures
        has_at(buf, p, byte_string(x->Write_version)),
        has_at(buf, p + byte_string(x->Write_version).len(), option_bytes(x->Write_correlation_id)),
        has_at(
            buf,
            p + byte_string(x->Write_version).len() + option_bytes(x->Write_correlation_id).len(),
            varint(x->Write_offset as nat),
        ),
        has_at(
            buf,
            p + byte_string(x->Write_version).len() + option_bytes(x->Write_correlation_id).len()
                + varint(x->Write_offset as nat).len(),
            byte_string(x->Write_data),
        ),
{
    let t = varint(x->Write_offset as nat) + byte_string(x->Write_data);
    let r = option_bytes(x->Write_correlation_id) + t;
    assert(command_body(x) =~= byte_string(x->Write_version) + r);
    let at1 = p + byte_string(x->Write_version).len();
    lemma_split(buf, p, byte_string(x->Write_version), r);
    lemma_split(buf, at1, option_bytes(x->Write_correlation_id), t);
    lemma_split(
        buf,
        at1 + option_bytes(x->Write_correlation_id).len(),
        varint(x->Write_offset as nat),
        byte_string(x->Write_data),
    );
}

proof fn lemma_swap_parts(buf: Seq<u8>, p: int, x: CommandView)
    requires
        x is Swap,
        has_at(buf, p, command_body(x)),
    ensures
        has_at(buf, p, byte_string(x->Swap_version)),
        has_at(buf, p + byte_string(x->Swap_version).len(), option_bytes(x->Swap_correlation_id)),
        has_at(
            buf,
            p + byte_string(x->Swap_version).len() + option_bytes(x->Swap_correlation_id).len(),
            byte_string(x->Swap_checksum),
        ),
{
    let r = option_bytes(x->Swap_correlation_id) + byte_string(x->Swap_checksum);
    assert(command_body(x) =~= byte_string(x->Swap_version) + r);
    lemma_split(buf, p, byte_string(x->Swap_version), r);
    lemma_split(
        buf,
        p + byte_string(x->Swap_version).len(),
        option_bytes(x->Swap_correlation_id),
        byte_string(x->Swap_checksum),
    );
}


/// The status encoded at the start of `buf`; the bytes after it are ignored.
pub fn decode_status<'a>(buf: &'a [u8]) -> (r: Result<Status<'a>, CodecError>)
    ensures
        r is Ok <==> exists|x: StatusView| status_fits(x) && has_at(buf@, 0, status_bytes(x)),
        r matches Ok(s) ==> status_fits(s@) && has_at(buf@, 0, status_bytes(s@)),
        forall|x: StatusView|
            status_fits(x) && #[trigger] has_at(buf@, 0, status_bytes(x)) ==> (r matches Ok(s)
                && s@ == x),
        r matches Err(e) ==> e == CodecError::Malformed,
{
    match read_status(buf, 0) {
        Some((s, _)) => {
            proof {
                assert forall|x: StatusView|
                    status_fits(x) && #[trigger] has_at(buf@, 0, status_bytes(x)) implies s@ == x by {
                    lemma_status_unique(buf@, 0, s@, x);
                }
            }
            Ok(s)
        },
        None => Err(CodecError::Malformed),
    }
}

/// The command encoded at the start of `buf`; the bytes after it are ignored.
pub fn decode_command<'a>(buf: &'a [u8]) -> (r: Result<Command<'a>, CodecError>)
    ensures
        r is Ok <==> exists|x: CommandView| command_fits(x) && has_at(buf@, 0, command_bytes(x)),
        r matches Ok(c) ==> command_fits(c@) && has_at(buf@, 0, command_bytes(c@)),
        forall|x: CommandView|
            command_fits(x) && #[trigger] has_at(buf@, 0, command_bytes(x)) ==> (r matches Ok(c)
                && c@ == x),
        r matches Err(e) ==> e == CodecError::Malformed,
{
    match read_command(buf, 0) {
        Some((c, _)) => {
            proof {
                assert forall|x: CommandView|
                    command_fits(x) && #[trigger] has_at(buf@, 0, command_bytes(x)) implies c@ == x by {
                    lemma_command_unique(buf@, 0, c@, x);
                }
            }
            Ok(c)
        },
        None => Err(CodecError::Malformed),
    }
}

/// Encoding a status and decoding the result, padded with any bytes, gives the status back: the
/// padded bytes hold its encoding at the start, and hold no other status's encoding there.
pub proof fn lemma_status_round_trip(s: StatusView, padding: Seq<u8>)
    requires
        status_fits(s),
    ensures
        has_at(status_bytes(s) + padding, 0, status_bytes(s)),
        forall|x: StatusView|
            #[trigger] has_at(status_bytes(s) + padding, 0, status_bytes(x)) ==> x == s,
{
    let buf = status_bytes(s) + padding;
    assert(buf.subrange(0, status_bytes(s).len() as int) =~= status_bytes(s));
    assert forall|x: StatusView| #[trigger] has_at(buf, 0, status_bytes(x)) implies x == s by {
        lemma_status_unique(buf, 0, x, s);
    }
}

/// Encoding a command and decoding the result, padded with any bytes, gives the command back: the
/// padded bytes hold its encoding at the start, and hold no other command's encoding there.
pub proof fn lemma_command_round_trip(c: CommandView, padding: Seq<u8>)
    requires
        command_fits(c),
    ensures
        has_at(command_bytes(c) + padding, 0, command_bytes(c)),
        forall|x: CommandView|
            #[trigger] has_at(command_bytes(c) + padding, 0, command_bytes(x)) ==> x == c,
{
    let buf = command_bytes(c) + padding;
    assert(buf.subrange(0, command_bytes(c).len() as int) =~= command_bytes(c));
    assert forall|x: CommandView| #[trigger] has_at(buf, 0, command_bytes(x)) implies x == c by {
        lemma_command_unique(buf, 0, x, c);
    }
}

/// The size of a frame on a framed serial link.
pub const FRAME_SIZE: usize = 1024;

/// `bytes` padded with zeros to `size` bytes.
pub fn pad_frame(bytes: Vec<u8>, size: usize) -> (r: Vec<u8>)
    requires
        bytes@.len() <= size,
    ensures
        r@ == bytes@ + Seq::new((size - bytes@.len()) as nat, |i: int| 0u8),
{
    let mut out = bytes;
    while out.len() < size
        invariant
            bytes@.len() <= out@.len() <= size,
            out@ == bytes@ + Seq::new((out@.len() - bytes@.len()) as nat, |i: int| 0u8),
        decreases size - out@.len(),
    {
        out.push(0);
        assert(out@ =~= bytes@ + Seq::new((out@.len() - bytes@.len()) as nat, |i: int| 0u8));
    }
    out
}

/// The status in a frame: its encoding, padded with zeros to [`FRAME_SIZE`] bytes.
pub fn status_frame(status: &Status) -> (r: Result<Vec<u8>, CodecError>)
    ensures
        r is Ok <==> status_fits(status@) && status_bytes(status@).len() <= FRAME_SIZE,
        r matches Ok(f) ==> f@.len() == FRAME_SIZE && has_at(f@, 0, status_bytes(status@)),
        r matches Err(e) ==> e == CodecError::BufferFull,
{
    let bytes = encode_status(status, FRAME_SIZE)?;
    let f = pad_frame(bytes, FRAME_SIZE);
    assert(f@.subrange(0, status_bytes(status@).len() as int) =~= status_bytes(status@));
    Ok(f)
}

/// The command in a frame: its encoding, padded with zeros to [`FRAME_SIZE`] bytes.
pub fn command_frame(command: &Command) -> (r: Result<Vec<u8>, CodecError>)
    ensures
        r is Ok <==> command_fits(command@) && command_bytes(command@).len() <= FRAME_SIZE,
        r matches Ok(f) ==> f@.len() == FRAME_SIZE && has_at(f@, 0, command_bytes(command@)),
        r matches Err(e) ==> e == CodecError::BufferFull,
{
    let bytes = encode_command(command, FRAME_SIZE)?;
    let f = pad_frame(bytes, FRAME_SIZE);
    assert(f@.subrange(0, command_bytes(command@).len() as int) =~= command_bytes(command@));
    Ok(f)
}

} // verus!
