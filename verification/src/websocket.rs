//! The WebSocket side of the report server: the handshake key and answer, and
//! the framing of messages.

use vstd::prelude::*;

use base64::Engine;
use sha1::Digest;

use crate::text;

verus! {

/// The lower-case form of an ASCII letter; other characters stay as they are.
pub open spec fn ascii_lower(c: char) -> char {
    if 'A' <= c <= 'Z' {
        ((c as u32) + 32) as char
    } else {
        c
    }
}

/// Whether `a` and `b` are equal when ASCII letters are compared regardless of case.
pub open spec fn eq_ignore_ascii_case(a: Seq<char>, b: Seq<char>) -> bool {
    a.len() == b.len() && forall|i: int| 0 <= i < a.len() ==> ascii_lower(a[i]) == ascii_lower(b[i])
}

/// The name of the header that carries the handshake key.
pub open spec fn key_header() -> Seq<char> {
    "Sec-WebSocket-Key"@
}

/// The key a request line carries: where the part before its first `:` is the key
/// header's name, in any case, the trimmed part after it.
pub open spec fn key_of_line(line: Seq<char>) -> Option<Seq<char>> {
    let k = text::first_index(line, ':');
    if k < line.len() && eq_ignore_ascii_case(line.take(k as int), key_header()) {
        Some(text::trim(line.skip((k + 1) as int)))
    } else {
        None
    }
}

/// The key of the first of `ls` that carries one.
pub open spec fn first_key(ls: Seq<Seq<char>>) -> Option<Seq<char>>
    decreases ls.len(),
{
    if ls.len() == 0 {
        None
    } else {
        match key_of_line(ls[0]) {
            Some(k) => Some(k),
            None => first_key(ls.drop_first()),
        }
    }
}

fn lower(c: char) -> (r: char)
    ensures
        r == ascii_lower(c),
{
    if 'A' <= c && c <= 'Z' {
        ((c as u8) + 32) as char
    } else {
        c
    }
}

/// Whether the line `v[lo..hi]` names the key header before its first `:`, and if so
/// where the value after that `:` starts.
fn key_value_start(v: &Vec<char>, lo: usize, hi: usize) -> (r: Option<usize>)
    requires
        lo <= hi <= v@.len(),
    ensures
        match r {
            Some(s) => lo < s <= hi && key_of_line(v@.subrange(lo as int, hi as int)) == Some(
                text::trim(v@.subrange(s as int, hi as int)),
            ),
            None => key_of_line(v@.subrange(lo as int, hi as int)) is None,
        },
{
    let ghost line = v@.subrange(lo as int, hi as int);
    let mut k = lo;
    while k < hi && v[k] != ':'
        invariant
            lo <= k <= hi <= v@.len(),
            forall|j: int| lo <= j < k ==> v@[j] != ':',
        decreases hi - k,
    {
        k = k + 1;
    }
    proof {
        assert forall|j: int| 0 <= j < k - lo implies line[j] != ':' by {
            assert(line[j] == v@[lo + j]);
        }
        if k < hi {
            assert(line[k - lo] == v@[k as int]);
        }
        text::lemma_first_index(line, ':', k - lo);
    }
    if k == hi {
        return None;
    }
    let name = text::chars_of("Sec-WebSocket-Key");
    let ghost nm = line.take(k - lo);
    assert(nm =~= v@.subrange(lo as int, k as int));
    if k - lo != name.len() {
        return None;
    }
    let mut i: usize = 0;
    while i < name.len()
        invariant
            lo <= k <= hi <= v@.len(),
            nm == v@.subrange(lo as int, k as int),
            name@ == key_header(),
            k - lo == name@.len(),
            i <= name@.len(),
            forall|j: int| 0 <= j < i ==> ascii_lower(nm[j]) == ascii_lower(name@[j]),
        decreases name@.len() - i,
    {
        if lower(v[lo + i]) != lower(name[i]) {
            assert(nm[i as int] == v@[lo + i]);
            return None;
        }
        assert(nm[i as int] == v@[lo + i]);
        i = i + 1;
    }
    assert(line.skip(k - lo + 1) =~= v@.subrange(k + 1, hi as int));
    Some(k + 1)
}

/// The handshake key that a request carries: the value of the first line whose name,
/// before a `:`, is `Sec-WebSocket-Key` in any case; `None` where no line does.
pub fn websocket_key(request: &str) -> (r: Option<String>)
    ensures
        match r {
            Some(k) => first_key(text::lines(request@)) == Some(k@),
            None => first_key(text::lines(request@)) is None,
        },
{
    let v = text::chars_of(request);
    let n = v.len();
    let mut pos: usize = 0;
    assert(v@.subrange(0, n as int) =~= v@);
    while pos < n
        invariant
            pos <= n == v@.len(),
            v@ == request@,
            first_key(text::lines(request@)) == first_key(text::lines(v@.subrange(pos as int, n as int))),
        decreases n - pos,
    {
        let (end, next) = text::next_line(&v, pos);
        let ghost ls = text::lines(v@.subrange(pos as int, n as int));
        assert(ls[0] == v@.subrange(pos as int, end as int));
        assert(ls.drop_first() =~= text::lines(v@.subrange(next as int, n as int)));
        match key_value_start(&v, pos, end) {
            Some(s) => {
                let (a, b) = text::trim_range(&v, s, end);
                return Some(text::string_of(&v, a, b));
            },
            None => {},
        }
        pos = next;
    }
    assert(text::lines(v@.subrange(n as int, n as int)) =~= Seq::<Seq<char>>::empty());
    None
}

/// The SHA-1 digest of `data`.
pub uninterp spec fn sha1_of(data: Seq<u8>) -> Seq<u8>;

/// `sha1::Sha1::digest`: the SHA-1 digest of `data`, which is a function of `data`
/// alone and is 20 bytes long. What the digest is, is not stated here.
#[verifier::external_body]
fn sha1_digest(data: &[u8]) -> (d: Vec<u8>)
    ensures
        d@ == sha1_of(data@),
        d@.len() == 20,
{
    sha1::Sha1::digest(data).to_vec()
}

/// The character for the 6-bit value `x` in the standard base64 alphabet
/// (`A`-`Z`, `a`-`z`, `0`-`9`, `+`, `/`).
pub open spec fn base64_digit(x: int) -> char {
    if x < 26 {
        (65 + x) as char
    } else if x < 52 {
        (97 + x - 26) as char
    } else if x < 62 {
        (48 + x - 52) as char
    } else if x == 62 {
        '+'
    } else {
        '/'
    }
}

/// The standard base64 encoding of `d` (RFC 4648), with `=` padding: each group of three
/// bytes gives four characters, and a last group of one or two bytes is padded.
pub open spec fn base64_encode(d: Seq<u8>) -> Seq<char>
    decreases d.len(),
{
    if d.len() == 0 {
        seq![]
    } else if d.len() == 1 {
        seq![base64_digit((d[0] / 4) as int), base64_digit((d[0] % 4) * 16), '=', '=']
    } else if d.len() == 2 {
        seq![
            base64_digit((d[0] / 4) as int),
            base64_digit((d[0] % 4) * 16 + d[1] / 16),
            base64_digit((d[1] % 16) * 4),
            '=',
        ]
    } else {
        seq![
            base64_digit((d[0] / 4) as int),
            base64_digit((d[0] % 4) * 16 + d[1] / 16),
            base64_digit((d[1] % 16) * 4 + d[2] / 64),
            base64_digit((d[2] % 64) as int),
        ] + base64_encode(d.skip(3))
    }
}

/// `base64::engine::general_purpose::STANDARD.encode`: the standard base64 encoding of
/// `data` with padding. It panics where the encoded length does not fit in a `usize`,
/// which `requires` leaves out.
#[verifier::external_body]
fn base64_standard(data: &[u8]) -> (s: String)
    requires
        4 * ((data@.len() + 2) / 3) <= usize::MAX,
    ensures
        s@ == base64_encode(data@),
{
    base64::engine::general_purpose::STANDARD.encode(data)
}

/// The GUID that the WebSocket protocol appends to the key.
pub open spec fn ws_guid() -> Seq<char> {
    "258EAFA5-E914-47DA-95CA-C5AB0DC85B11"@
}

/// The `Sec-WebSocket-Accept` answer to the handshake key `key`: the base64 encoding of
/// the SHA-1 digest of the key followed by the WebSocket GUID.
pub fn websocket_accept(key: &str) -> (r: String)
    ensures
        r@ == base64_encode(
            sha1_of(vstd::utf8::encode_utf8(key@) + vstd::utf8::encode_utf8(ws_guid())),
        ),
{
    let mut data = vstd::slice::slice_to_vec(key.as_bytes());
    let mut guid = vstd::slice::slice_to_vec("258EAFA5-E914-47DA-95CA-C5AB0DC85B11".as_bytes());
    data.append(&mut guid);
    let digest = sha1_digest(data.as_slice());
    base64_standard(digest.as_slice())
}

/// 256 to the power `k`.
pub open spec fn pow256(k: nat) -> nat
    decreases k,
{
    if k == 0 {
        1
    } else {
        256 * pow256((k - 1) as nat)
    }
}

/// The last `k` bytes of the big-endian encoding of `n`.
pub open spec fn be_bytes(n: nat, k: nat) -> Seq<u8>
    decreases k,
{
    if k == 0 {
        seq![]
    } else {
        be_bytes(n / 256, (k - 1) as nat).push((n % 256) as u8)
    }
}

/// The number that the big-endian bytes `b` encode.
pub open spec fn be_value(b: Seq<u8>) -> nat
    decreases b.len(),
{
    if b.len() == 0 {
        0
    } else {
        be_value(b.drop_last()) * 256 + b.last() as nat
    }
}

/// The header of an unmasked, final frame with opcode `opcode` and a payload of `len`
/// bytes: the final bit and the opcode, then the length in one byte below 126, else 126
/// and two bytes, else 127 and eight bytes, big-endian.
pub open spec fn frame_header_of(opcode: u8, len: nat) -> Seq<u8> {
    let first = 0x80u8 | opcode;
    if len < 126 {
        seq![first, len as u8]
    } else if len <= 0xffff {
        seq![first, 126u8] + be_bytes(len, 2)
    } else {
        seq![first, 127u8] + be_bytes(len, 8)
    }
}

fn push_be(out: &mut Vec<u8>, n: u64, k: usize)
    ensures
        final(out)@ == old(out)@ + be_bytes(n as nat, k as nat),
    decreases k,
{
    if k > 0 {
        push_be(out, n / 256, k - 1);
        out.push((n % 256) as u8);
        assert(final(out)@ =~= old(out)@ + be_bytes(n as nat, k as nat));
    } else {
        assert(old(out)@ + be_bytes(n as nat, 0) =~= old(out)@);
    }
}

/// The header of an unmasked, final frame with opcode `opcode` and a payload of `len`
/// bytes.
pub fn frame_header(opcode: u8, len: usize) -> (h: Vec<u8>)
    ensures
        h@ == frame_header_of(opcode, len as nat),
{
    let mut h: Vec<u8> = Vec::new();
    h.push(0x80u8 | opcode);
    if len < 126 {
        h.push(len as u8);
    } else if len <= 0xffff {
        h.push(126u8);
        push_be(&mut h, len as u64, 2);
    } else {
        h.push(127u8);
        push_be(&mut h, len as u64, 8);
    }
    assert(h@ =~= frame_header_of(opcode, len as nat));
    h
}

/// What the first two bytes of a frame say.
pub struct FrameStart {
    /// The frame closes the connection (its opcode is 8).
    pub close: bool,
    /// The payload is masked.
    pub masked: bool,
    /// How many bytes of extended length follow (0, 2 or 8).
    pub length_bytes: usize,
    /// The length in the second byte, where no extended length follows.
    pub short_length: u64,
}

/// How many bytes of extended length follow a second byte whose length field is `len7`.
pub open spec fn length_bytes_of(len7: u8) -> nat {
    if len7 == 126 {
        2
    } else if len7 == 127 {
        8
    } else {
        0
    }
}

/// Reads the first two bytes `b0`, `b1` of a frame.
pub fn frame_start(b0: u8, b1: u8) -> (f: FrameStart)
    ensures
        f.close == (b0 & 0x0f == 8),
        f.masked == (b1 & 0x80 != 0),
        f.length_bytes == length_bytes_of(b1 & 0x7f),
        f.short_length == (b1 & 0x7f),
{
    let len7 = b1 & 0x7f;
    let length_bytes: usize = if len7 == 126 {
        2
    } else if len7 == 127 {
        8
    } else {
        0
    };
    FrameStart {
        close: b0 & 0x0f == 8,
        masked: b1 & 0x80 != 0,
        length_bytes,
        short_length: len7 as u64,
    }
}

/// The payload length of a frame: the short length where no extended length follows,
/// else the big-endian number in the extended length bytes.
pub open spec fn frame_length_of(short_length: nat, length_bytes: nat, ext: Seq<u8>) -> nat {
    if length_bytes == 0 {
        short_length
    } else {
        be_value(ext)
    }
}

proof fn lemma_be_value_bound(b: Seq<u8>)
    ensures
        be_value(b) < pow256(b.len()),
    decreases b.len(),
{
    if b.len() > 0 {
        lemma_be_value_bound(b.drop_last());
        let v = be_value(b.drop_last());
        let p = pow256((b.len() - 1) as nat);
        let x = b.last() as nat;
        assert(v * 256 + x < p * 256) by (nonlinear_arith)
            requires
                v < p,
                x < 256,
        ;
    }
}

/// The payload length of the frame that starts with `start`, whose extended length bytes
/// are `ext`.
pub fn frame_length(start: &FrameStart, ext: &[u8]) -> (n: u64)
    requires
        ext@.len() == start.length_bytes,
        start.length_bytes <= 8,
    ensures
        n as nat == frame_length_of(start.short_length as nat, start.length_bytes as nat, ext@),
{
    if start.length_bytes == 0 {
        return start.short_length;
    }
    let mut acc: u64 = 0;
    let mut i: usize = 0;
    while i < ext.len()
        invariant
            i <= ext@.len() <= 8,
            acc as nat == be_value(ext@.take(i as int)),
        decreases ext@.len() - i,
    {
        proof {
            lemma_be_value_bound(ext@.take(i as int));
            assert(pow256(i as nat) <= pow256(7)) by {
                lemma_pow256_mono(i as nat, 7);
            }
            reveal_with_fuel(pow256, 8);
            assert(pow256(7) == 72057594037927936nat);
        }
        assert(ext@.take(i + 1).drop_last() =~= ext@.take(i as int));
        acc = acc * 256 + ext[i] as u64;
        i = i + 1;
    }
    assert(ext@.take(i as int) =~= ext@);
    acc
}

proof fn lemma_pow256_mono(a: nat, b: nat)
    requires
        a <= b,
    ensures
        pow256(a) <= pow256(b),
    decreases b,
{
    if a < b {
        lemma_pow256_mono(a, (b - 1) as nat);
    }
}

/// The payload `p` with each byte xored with the mask byte at its position modulo four.
pub open spec fn unmasked(p: Seq<u8>, mask: Seq<u8>) -> Seq<u8> {
    Seq::new(p.len(), |i: int| p[i] ^ mask[i % 4])
}

/// Removes the mask `mask` from `payload`.
pub fn unmask(payload: &mut Vec<u8>, mask: [u8; 4])
    ensures
        final(payload)@ == unmasked(old(payload)@, mask@),
{
    let n = payload.len();
    let mut i: usize = 0;
    while i < n
        invariant
            n == payload@.len() == old(payload)@.len(),
            i <= n,
            forall|j: int| 0 <= j < i ==> payload@[j] == old(payload)@[j] ^ mask@[j % 4],
            forall|j: int| i <= j < n ==> payload@[j] == old(payload)@[j],
        decreases n - i,
    {
        let b = payload[i] ^ mask[i % 4];
        payload[i] = b;
        i = i + 1;
    }
    assert(payload@ =~= unmasked(old(payload)@, mask@));
}

proof fn lemma_be_roundtrip(n: nat, k: nat)
    requires
        n < pow256(k),
    ensures
        be_bytes(n, k).len() == k,
        be_value(be_bytes(n, k)) == n,
    decreases k,
{
    if k > 0 {
        let p = pow256((k - 1) as nat);
        assert(n / 256 < p) by (nonlinear_arith)
            requires
                n < 256 * p,
        ;
        lemma_be_roundtrip(n / 256, (k - 1) as nat);
        let b = be_bytes(n, k);
        assert(b.drop_last() =~= be_bytes(n / 256, (k - 1) as nat));
        assert((n / 256) * 256 + n % 256 == n) by (nonlinear_arith);
    }
}

/// Law: reading back the header of a frame gives what it was written from: the opcode,
/// no mask, as many extended length bytes as follow, and the payload length.
pub proof fn law_frame_header_roundtrip(opcode: u8, len: nat)
    requires
        opcode < 16,
        len < pow256(8),
    ensures
        ({
            let h = frame_header_of(opcode, len);
            let lb = length_bytes_of(h[1] & 0x7f);
            &&& h.len() == 2 + lb
            &&& h[0] & 0x0f == opcode
            &&& h[1] & 0x80 == 0
            &&& frame_length_of((h[1] & 0x7f) as nat, lb, h.skip(2)) == len
        }),
{
    let h = frame_header_of(opcode, len);
    assert((0x80u8 | opcode) & 0x0f == opcode) by (bit_vector)
        requires
            opcode < 16,
    ;
    if len < 126 {
        let b = len as u8;
        assert(b & 0x80 == 0 && b & 0x7f == b) by (bit_vector)
            requires
                b < 126,
        ;
    } else if len <= 0xffff {
        assert(126u8 & 0x80 == 0 && 126u8 & 0x7f == 126) by (bit_vector);
        reveal_with_fuel(pow256, 3);
        lemma_be_roundtrip(len, 2);
        assert(h.skip(2) =~= be_bytes(len, 2));
    } else {
        assert(127u8 & 0x80 == 0 && 127u8 & 0x7f == 127) by (bit_vector);
        lemma_be_roundtrip(len, 8);
        assert(h.skip(2) =~= be_bytes(len, 8));
    }
}

/// Law: removing a mask twice gives back the payload, so masking and unmasking are the
/// same operation.
pub proof fn law_unmask_twice(p: Seq<u8>, mask: Seq<u8>)
    requires
        mask.len() == 4,
    ensures
        unmasked(unmasked(p, mask), mask) == p,
{
    assert forall|i: int| 0 <= i < p.len() implies unmasked(unmasked(p, mask), mask)[i] == p[i] by {
        let b = p[i];
        let m = mask[i % 4];
        assert((b ^ m) ^ m == b) by (bit_vector);
    }
    assert(unmasked(unmasked(p, mask), mask) =~= p);
}

} // verus!
