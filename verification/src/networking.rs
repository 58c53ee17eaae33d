use vstd::prelude::*;

use crate::bytes_util::{
    decode_buffer_to_u32,
    decode_buffer_to_usize,
    encode_usize_as_vec,
    law_u32_le_roundtrip,
    le_u32_value,
    pad_until_len,
    padded,
    u32_le_bytes,
    write_u32_le,
};

use crc32fast::Hasher;

verus! {

/// CAP is the chunk capacity, 256 KiB: every chunk travels padded to this size.
pub const CAP: usize = 262144;

/// One bit step of the reflected CRC-32 (IEEE) register: shift right, and xor the reflected
/// polynomial 0xEDB88320 when the bit shifted out is set.
pub open spec fn crc_bit(c: u32) -> u32 {
    if c & 1 == 1 {
        (c >> 1) ^ 0xEDB88320u32
    } else {
        c >> 1
    }
}

/// The CRC-32 register after feeding one byte: xor the byte in, then eight bit steps.
pub open spec fn crc_byte(c: u32, b: u8) -> u32 {
    crc_bit(crc_bit(crc_bit(crc_bit(crc_bit(crc_bit(crc_bit(crc_bit(c ^ (b as u32)))))))))
}

/// The CRC-32 register after feeding `data`, starting from 0xFFFFFFFF.
pub open spec fn crc_register(data: Seq<u8>) -> u32
    decreases data.len(),
{
    if data.len() == 0 {
        0xFFFFFFFFu32
    } else {
        crc_byte(crc_register(data.drop_last()), data.last())
    }
}

/// The CRC-32 (IEEE 802.3, as crc32fast computes it) of `data`: the register after all the
/// bytes, xored with 0xFFFFFFFF. Its check value is `crc32_of("123456789") == 0xCBF43926`.
pub open spec fn crc32_of(data: Seq<u8>) -> u32 {
    crc_register(data) ^ 0xFFFFFFFFu32
}

/// crc32fast's `Hasher::new()`, `Hasher::update(data)` and `Hasher::finalize()`, in that
/// order, as the sender and the receiver both use them.
/// Claimed: the checksum is the CRC-32 (IEEE) of the bytes, `crc32_of` (crc32fast computes
/// that checksum, starting from the zero state, whose register form is 0xFFFFFFFF).
#[verifier::external_body]
fn crc32_checksum(data: &[u8]) -> (checksum: u32)
    ensures
        checksum == crc32_of(data@),
{
    let mut hasher = Hasher::new();
    hasher.update(data);
    hasher.finalize()
}

/// The frame that carries one chunk: the fragment id and the length of the chunk as
/// little-endian `u32`s, then the chunk padded to `CAP` bytes.
pub open spec fn chunk_frame(frag_id: usize, bytes: Seq<u8>) -> Seq<u8> {
    u32_le_bytes(frag_id as u32) + u32_le_bytes(bytes.len() as u32) + padded(bytes, CAP as nat)
}

/// The fragment id that a chunk frame announces.
pub open spec fn frame_id(frame: Seq<u8>) -> int {
    le_u32_value(frame.subrange(0, 4))
}

/// The payload length that a chunk frame announces.
pub open spec fn frame_len(frame: Seq<u8>) -> int {
    le_u32_value(frame.subrange(4, 8))
}

/// The payload of a chunk frame: the announced number of bytes after the header.
pub open spec fn frame_payload(frame: Seq<u8>) -> Seq<u8> {
    frame.subrange(8, 8 + frame_len(frame))
}

/// Builds the frame that sends one chunk and the checksum that the receiver is expected
/// to send back: the frame announces the length of the chunk and carries it padded to
/// `CAP` bytes; the checksum covers the chunk itself, which is what the receiver reads.
pub fn build_chunk_frame(frag_id: usize, bytes: Vec<u8>) -> (res: (Vec<u8>, u32))
    requires
        bytes.len() <= CAP,
    ensures
        res.0@ == chunk_frame(frag_id, bytes@),
        res.1 == crc32_of(bytes@),
{
    let checksum: u32 = crc32_checksum(bytes.as_slice());
    let mut res_vec = encode_usize_as_vec(frag_id);
    let mut len_vec = encode_usize_as_vec(bytes.len());
    let mut padded_bytes = pad_until_len(bytes, CAP);
    res_vec.append(&mut len_vec);
    res_vec.append(&mut padded_bytes);
    (res_vec, checksum)
}

/// Copies `v[from..to]` into a new vector.
fn copy_range(v: &Vec<u8>, from: usize, to: usize) -> (res: Vec<u8>)
    requires
        from <= to <= v.len(),
    ensures
        res@ == v@.subrange(from as int, to as int),
{
    let mut res: Vec<u8> = Vec::new();
    let mut i: usize = from;
    while i < to
        invariant
            from <= i <= to <= v.len(),
            res@ == v@.subrange(from as int, i as int),
        decreases to - i,
    {
        res.push(v[i]);
        i = i + 1;
        assert(res@ =~= v@.subrange(from as int, i as int));
    }
    res
}

/// Reads a received chunk frame: the fragment id from the first four bytes, the payload
/// length from the next four, and the payload that follows.
pub fn parse_chunk_frame(frame: Vec<u8>) -> (res: (usize, Vec<u8>))
    requires
        frame.len() >= 8,
        8 + frame_len(frame@) <= frame.len(),
    ensures
        res.0 == frame_id(frame@),
        res.1@ == frame_payload(frame@),
{
    let id_bytes = copy_range(&frame, 0, 4);
    let id: usize = decode_buffer_to_usize(id_bytes);
    let length_bytes = copy_range(&frame, 4, 8);
    let length: usize = decode_buffer_to_usize(length_bytes);
    let buf = copy_range(&frame, 8, 8 + length);
    (id, buf)
}

/// The reply that the receiver writes after reading a chunk: the checksum of the payload
/// as four little-endian bytes.
pub fn checksum_reply(payload: &Vec<u8>) -> (res: Vec<u8>)
    ensures
        res@ == u32_le_bytes(crc32_of(payload@)),
{
    let checksum: u32 = crc32_checksum(payload.as_slice());
    write_u32_le(checksum)
}

/// Whether a reply from the receiver confirms the checksum of the chunk that was sent.
pub fn reply_matches(checksum: u32, reply: Vec<u8>) -> (res: bool)
    requires
        reply.len() >= 4,
    ensures
        res == (le_u32_value(reply@) == checksum),
{
    let received_sum: u32 = decode_buffer_to_u32(reply);
    checksum == received_sum
}

/// Fragments sorted by id, in increasing order.
pub open spec fn sorted_by_id(s: Seq<(usize, Vec<u8>)>) -> bool {
    forall|i: int, j: int| 0 <= i < j < s.len() ==> s[i].0 <= s[j].0
}

/// Whether a fragment carries id `k`.
pub open spec fn has_id(k: usize) -> spec_fn((usize, Vec<u8>)) -> bool {
    |e: (usize, Vec<u8>)| e.0 == k
}

/// The fragments of `s` that carry id `k`, in their order in `s`.
pub open spec fn with_id(s: Seq<(usize, Vec<u8>)>, k: usize) -> Seq<(usize, Vec<u8>)> {
    s.filter(has_id(k))
}

/// Puts the received fragments in the order in which they are written to the file:
/// sorted by fragment id, fragments with the same id in the order in which they came
/// (a stable sort by id).
pub fn order_fragments(results: Vec<(usize, Vec<u8>)>) -> (res: Vec<(usize, Vec<u8>)>)
    ensures
        res.len() == results.len(),
        sorted_by_id(res@),
        forall|k: usize| #[trigger] with_id(res@, k) == with_id(results@, k),
{
    let ghost input = results@;
    let mut results = results;
    let mut res: Vec<(usize, Vec<u8>)> = Vec::new();
    proof {
        assert(input.subrange(input.len() as int, input.len() as int) =~= Seq::<
            (usize, Vec<u8>),
        >::empty());
        assert forall|k: usize| #[trigger]
            with_id(res@, k) == with_id(input.subrange(input.len() as int, input.len() as int), k) by {
            assert(res@ =~= Seq::<(usize, Vec<u8>)>::empty());
        }
    }
    while results.len() > 0
        invariant
            results@ == input.subrange(0, results.len() as int),
            results.len() <= input.len(),
            res.len() + results.len() == input.len(),
            sorted_by_id(res@),
            forall|k: usize| #[trigger]
                with_id(res@, k) == with_id(input.subrange(results.len() as int, input.len() as int), k),
        decreases results.len(),
    {
        let ghost old_res = res@;
        let ghost i = results.len() - 1;
        let item = match results.pop() {
            Some(x) => x,
            None => {
                return res;
            },
        };
        let key: usize = item.0;
        let mut p: usize = 0;
        while p < res.len() && res[p].0 < key
            invariant
                p <= res.len(),
                res@ == old_res,
                forall|j: int| 0 <= j < p ==> #[trigger] res@[j].0 < key,
            decreases res.len() - p,
        {
            p = p + 1;
        }
        proof {
            assert forall|j: int| p <= j < res.len() implies #[trigger] res@[j].0 >= key by {
                assert(res@[p as int].0 >= key);
            }
        }
        res.insert(p, item);
        proof {
            assert(res@ =~= old_res.subrange(0, p as int) + seq![item] + old_res.subrange(p as int, old_res.len() as int));
            assert(old_res =~= old_res.subrange(0, p as int) + old_res.subrange(p as int, old_res.len() as int));
            assert(input.subrange(i as int, input.len() as int) =~= seq![item] + input.subrange(i + 1, input.len() as int));
            assert forall|k: usize| #[trigger]
                with_id(res@, k) == with_id(input.subrange(i as int, input.len() as int), k) by {
                lemma_with_id_insert(old_res, p as int, item, k);
                lemma_with_id_concat(seq![item], input.subrange(i + 1, input.len() as int), k);
            }
        }
    }
    assert(input.subrange(0, input.len() as int) =~= input);
    res
}

proof fn lemma_with_id_concat(a: Seq<(usize, Vec<u8>)>, b: Seq<(usize, Vec<u8>)>, k: usize)
    ensures
        with_id(a + b, k) == with_id(a, k) + with_id(b, k),
{
    Seq::filter_distributes_over_add(a, b, has_id(k));
}

proof fn lemma_with_id_insert(s: Seq<(usize, Vec<u8>)>, p: int, item: (usize, Vec<u8>), k: usize)
    requires
        0 <= p <= s.len(),
        forall|j: int| 0 <= j < p ==> #[trigger] s[j].0 < item.0,
    ensures
        with_id(s.subrange(0, p) + seq![item] + s.subrange(p, s.len() as int), k)
            == with_id(seq![item], k) + with_id(s, k),
{
    let pre = s.subrange(0, p);
    let post = s.subrange(p, s.len() as int);
    lemma_with_id_concat(pre + seq![item], post, k);
    lemma_with_id_concat(pre, seq![item], k);
    lemma_with_id_concat(pre, post, k);
    assert(s =~= pre + post);
    if item.0 == k {
        assert(with_id(pre, k) =~= Seq::<(usize, Vec<u8>)>::empty()) by {
            let pred = has_id(k);
            pre.lemma_filter_len(pred);
            if with_id(pre, k).len() > 0 {
                pre.lemma_filter_pred(pred, 0);
                let x = with_id(pre, k)[0];
                assert(pre.filter(pred)[0] == x);
                assert(pre.filter(pred).contains(x));
                pre.lemma_filter_contains_rev(pred, x);
                assert(false);
            }
        }
    } else {
        assert(with_id(seq![item], k) =~= Seq::<(usize, Vec<u8>)>::empty()) by {
            reveal_with_fuel(Seq::filter, 2);
        }
    }
}

/// Each id below the number of fragments is carried by exactly one fragment, and no
/// fragment carries a larger id: the numbering that the sender gives its chunks.
pub open spec fn ids_are_indices(s: Seq<(usize, Vec<u8>)>) -> bool {
    &&& forall|j: int| 0 <= j < s.len() ==> #[trigger] s[j].0 < s.len()
    &&& forall|k: usize| k < s.len() ==> #[trigger] with_id(s, k).len() == 1
}

/// When the received fragments are numbered `0..n` as the sender numbers its chunks, the
/// fragments put in order by `order_fragments` stand at their index: the i-th fragment
/// written to the file is the one that carries id i.
pub proof fn law_fragments_at_their_index(
    input: Seq<(usize, Vec<u8>)>,
    res: Seq<(usize, Vec<u8>)>,
)
    requires
        ids_are_indices(input),
        res.len() == input.len(),
        sorted_by_id(res),
        forall|k: usize| #[trigger] with_id(res, k) == with_id(input, k),
    ensures
        forall|i: int| 0 <= i < res.len() ==> #[trigger] res[i].0 == i,
        forall|i: int| 0 <= i < res.len() ==> #[trigger] res[i] == with_id(input, i as usize)[0],
{
    let n = res.len();
    assert forall|j: int| 0 <= j < n implies #[trigger] res[j].0 < n by {
        let k = res[j].0;
        lemma_in_with_id(res, j);
        let x = with_id(input, k)[0];
        input.lemma_filter_pred(has_id(k), 0);
        assert(input.filter(has_id(k)).contains(x));
        input.lemma_filter_contains_rev(has_id(k), x);
    }
    assert forall|i: int, j: int| 0 <= i < j < n implies res[i].0 < res[j].0 by {
        if res[i].0 == res[j].0 {
            lemma_two_with_id(res, i, j);
            assert(with_id(input, res[i].0).len() == 1);
        }
    }
    assert forall|i: int| 0 <= i < n implies #[trigger] res[i].0 == i by {
        lemma_increasing_from(res, i);
        lemma_increasing_to(res, i);
    }
    assert forall|i: int| 0 <= i < n implies #[trigger] res[i] == with_id(input, i as usize)[0] by {
        lemma_in_with_id(res, i);
        let k = res[i].0;
        let idx = choose|idx: int| 0 <= idx < with_id(res, k).len() && with_id(res, k)[idx] == res[i];
        assert(with_id(res, k).len() == 1);
        assert(idx == 0);
    }
}

proof fn lemma_in_with_id(s: Seq<(usize, Vec<u8>)>, j: int)
    requires
        0 <= j < s.len(),
    ensures
        with_id(s, s[j].0).contains(s[j]),
        with_id(s, s[j].0).len() > 0,
{
    s.lemma_filter_contains(has_id(s[j].0), j);
}

proof fn lemma_two_with_id(s: Seq<(usize, Vec<u8>)>, i: int, j: int)
    requires
        0 <= i < j < s.len(),
        s[i].0 == s[j].0,
    ensures
        with_id(s, s[i].0).len() >= 2,
{
    let k = s[i].0;
    let pre = s.subrange(0, j);
    let post = s.subrange(j, s.len() as int);
    assert(s =~= pre + post);
    lemma_with_id_concat(pre, post, k);
    assert(pre[i] == s[i]);
    lemma_in_with_id(pre, i);
    assert(post[0] == s[j]);
    lemma_in_with_id(post, 0);
}

proof fn lemma_increasing_from(s: Seq<(usize, Vec<u8>)>, i: int)
    requires
        0 <= i < s.len(),
        forall|a: int, b: int| 0 <= a < b < s.len() ==> s[a].0 < s[b].0,
    ensures
        s[i].0 >= i,
    decreases i,
{
    if i > 0 {
        lemma_increasing_from(s, i - 1);
        assert(s[i - 1].0 < s[i].0);
    }
}

proof fn lemma_increasing_to(s: Seq<(usize, Vec<u8>)>, i: int)
    requires
        0 <= i < s.len(),
        forall|a: int, b: int| 0 <= a < b < s.len() ==> s[a].0 < s[b].0,
        forall|j: int| 0 <= j < s.len() ==> #[trigger] s[j].0 < s.len(),
    ensures
        s[i].0 <= i,
    decreases s.len() - i,
{
    if i < s.len() - 1 {
        lemma_increasing_to(s, i + 1);
        assert(s[i].0 < s[i + 1].0);
    }
}

/// A chunk of at most `CAP` bytes with an id that fits in 32 bits is framed in exactly
/// `CAP + 8` bytes (what the receiver reads), and reading the frame back gives the id and
/// the chunk itself, unpadded.
pub proof fn law_chunk_frame_roundtrip(frag_id: usize, bytes: Seq<u8>)
    requires
        frag_id <= u32::MAX,
        bytes.len() <= CAP,
    ensures
        chunk_frame(frag_id, bytes).len() == CAP + 8,
        frame_id(chunk_frame(frag_id, bytes)) == frag_id,
        frame_len(chunk_frame(frag_id, bytes)) == bytes.len(),
        8 + frame_len(chunk_frame(frag_id, bytes)) <= chunk_frame(frag_id, bytes).len(),
        frame_payload(chunk_frame(frag_id, bytes)) == bytes,
{
    let f = chunk_frame(frag_id, bytes);
    law_u32_le_roundtrip(frag_id as u32);
    law_u32_le_roundtrip(bytes.len() as u32);
    assert(f.subrange(0, 4) =~= u32_le_bytes(frag_id as u32));
    assert(f.subrange(4, 8) =~= u32_le_bytes(bytes.len() as u32));
    assert(f.subrange(8, 8 + bytes.len() as int) =~= bytes);
}

/// A chunk that arrives intact is confirmed: the receiver's reply for the payload it reads
/// from the frame matches the checksum that the sender kept for that chunk.
pub proof fn law_intact_chunk_confirmed(frag_id: usize, bytes: Seq<u8>)
    requires
        frag_id <= u32::MAX,
        bytes.len() <= CAP,
    ensures
        le_u32_value(u32_le_bytes(crc32_of(frame_payload(chunk_frame(frag_id, bytes)))))
            == crc32_of(bytes),
{
    law_chunk_frame_roundtrip(frag_id, bytes);
    law_u32_le_roundtrip(crc32_of(bytes));
}

/// Whether the receiver accepts another chunk connection: it stops once it has accepted as
/// many chunks as the sender announced.
pub fn keep_accepting(accepted: usize, chunk_len: usize) -> (b: bool)
    ensures
        b == (accepted < chunk_len),
{
    accepted < chunk_len
}

/// The bytes written to the file from fragments in the given order: their payloads, one
/// after the other.
pub open spec fn file_contents(frags: Seq<(usize, Vec<u8>)>) -> Seq<u8> {
    frags.map_values(|f: (usize, Vec<u8>)| f.1@).flatten()
}

/// The file written is the file sent. The sender cuts the file into `chunks` of at most
/// `CAP` bytes and frames chunk `i` with id `i`; the receiver parses every frame exactly
/// once, in any order (fragment `j` came from the frame of chunk `sent[j]`), and puts the
/// fragments in order with `order_fragments`. Writing their payloads in that order gives
/// back the concatenation of the chunks.
pub proof fn law_file_reassembled(
    chunks: Seq<Seq<u8>>,
    sent: Seq<usize>,
    received: Seq<(usize, Vec<u8>)>,
    ordered: Seq<(usize, Vec<u8>)>,
)
    requires
        chunks.len() <= u32::MAX + 1,
        forall|i: int| 0 <= i < chunks.len() ==> #[trigger] chunks[i].len() <= CAP,
        received.len() == chunks.len(),
        sent.len() == received.len(),
        forall|j: int| 0 <= j < sent.len() ==> #[trigger] sent[j] < chunks.len(),
        forall|j: int|
            0 <= j < received.len() ==> #[trigger] received[j].0 == frame_id(
                chunk_frame(sent[j], chunks[sent[j] as int]),
            ) && received[j].1@ == frame_payload(chunk_frame(sent[j], chunks[sent[j] as int])),
        ids_are_indices(received),
        ordered.len() == received.len(),
        sorted_by_id(ordered),
        forall|k: usize| #[trigger] with_id(ordered, k) == with_id(received, k),
    ensures
        file_contents(ordered) == chunks.flatten(),
{
    let n = chunks.len();
    assert forall|j: int| 0 <= j < n implies #[trigger] received[j].0 == sent[j]
        && received[j].1@ == chunks[sent[j] as int] by {
        let c = chunks[sent[j] as int];
        assert(c.len() <= CAP);
        assert(sent[j] < n);
        law_chunk_frame_roundtrip(sent[j], c);
        assert(received[j].0 == frame_id(chunk_frame(sent[j], c)));
    }
    law_fragments_at_their_index(received, ordered);
    let payloads = ordered.map_values(|f: (usize, Vec<u8>)| f.1@);
    assert forall|i: int| 0 <= i < n implies #[trigger] payloads[i] == chunks[i] by {
        let x = with_id(received, i as usize)[0];
        assert(ordered[i] == x);
        assert(with_id(received, i as usize).len() == 1);
        received.lemma_filter_pred(has_id(i as usize), 0);
        assert(received.filter(has_id(i as usize)).contains(x));
        received.lemma_filter_contains_rev(has_id(i as usize), x);
        let j = choose|j: int| 0 <= j < received.len() && received[j] == x;
        assert(received[j].0 == sent[j]);
    }
    assert(payloads =~= chunks);
}

/// Whether the sender may start another chunk task: fewer than `thread_limit` are running.
pub fn may_start_task(active: u32, thread_limit: usize) -> (b: bool)
    ensures
        b == (active < thread_limit),
{
    (active as usize) < thread_limit
}

/// The number of running chunk tasks once one more has started.
pub fn task_started(active: u32) -> (n: u32)
    requires
        active < u32::MAX,
    ensures
        n == active + 1,
{
    active + 1
}

/// The number of running chunk tasks once one has finished.
pub fn task_finished(active: u32) -> (n: u32)
    requires
        active > 0,
    ensures
        n == active - 1,
{
    active - 1
}

/// The sender never runs more chunk tasks than its limit: it starts a task only when
/// `may_start_task` allows it and counts the task before starting the next one, so a count
/// within the limit stays within it through any start or finish.
pub proof fn law_tasks_within_limit(active: u32, thread_limit: usize)
    requires
        active <= thread_limit,
    ensures
        (active < thread_limit) ==> active + 1 <= thread_limit,
        active > 0 ==> active - 1 <= thread_limit,
{
}

proof fn lemma_crc_bit_injective(x: u32, y: u32)
    by (bit_vector)
    ensures
        crc_bit(x) == crc_bit(y) ==> x == y,
{
}

proof fn lemma_xor_injective(c1: u32, c2: u32, b: u32)
    by (bit_vector)
    ensures
        (c1 ^ b == c2 ^ b) ==> c1 == c2,
        (b ^ c1 == b ^ c2) ==> c1 == c2,
{
}

proof fn lemma_byte_xor_injective(c: u32, b1: u8, b2: u8)
    by (bit_vector)
    ensures
        (c ^ (b1 as u32) == c ^ (b2 as u32)) ==> b1 == b2,
{
}

/// Eight bit steps in a row lose no information.
proof fn lemma_eight_steps_injective(x: u32, y: u32)
    requires
        crc_bit(crc_bit(crc_bit(crc_bit(crc_bit(crc_bit(crc_bit(crc_bit(x))))))))
            == crc_bit(crc_bit(crc_bit(crc_bit(crc_bit(crc_bit(crc_bit(crc_bit(y)))))))),
    ensures
        x == y,
{
    let x1 = crc_bit(x);
    let y1 = crc_bit(y);
    let x2 = crc_bit(x1);
    let y2 = crc_bit(y1);
    let x3 = crc_bit(x2);
    let y3 = crc_bit(y2);
    let x4 = crc_bit(x3);
    let y4 = crc_bit(y3);
    let x5 = crc_bit(x4);
    let y5 = crc_bit(y4);
    let x6 = crc_bit(x5);
    let y6 = crc_bit(y5);
    let x7 = crc_bit(x6);
    let y7 = crc_bit(y6);
    lemma_crc_bit_injective(x7, y7);
    lemma_crc_bit_injective(x6, y6);
    lemma_crc_bit_injective(x5, y5);
    lemma_crc_bit_injective(x4, y4);
    lemma_crc_bit_injective(x3, y3);
    lemma_crc_bit_injective(x2, y2);
    lemma_crc_bit_injective(x1, y1);
    lemma_crc_bit_injective(x, y);
}

/// Feeding the same byte to two different registers keeps them different.
proof fn lemma_crc_byte_injective_register(c1: u32, c2: u32, b: u8)
    requires
        c1 != c2,
    ensures
        crc_byte(c1, b) != crc_byte(c2, b),
{
    if crc_byte(c1, b) == crc_byte(c2, b) {
        lemma_eight_steps_injective(c1 ^ (b as u32), c2 ^ (b as u32));
        lemma_xor_injective(c1, c2, b as u32);
    }
}

/// Feeding two different bytes to the same register gives different registers.
proof fn lemma_crc_byte_injective_byte(c: u32, b1: u8, b2: u8)
    requires
        b1 != b2,
    ensures
        crc_byte(c, b1) != crc_byte(c, b2),
{
    if crc_byte(c, b1) == crc_byte(c, b2) {
        lemma_eight_steps_injective(c ^ (b1 as u32), c ^ (b2 as u32));
        lemma_byte_xor_injective(c, b1, b2);
    }
}

/// The registers of the first `k` bytes of `a` and `b` differ once `k` passes the one
/// position where the two sequences differ.
proof fn lemma_registers_differ_after(a: Seq<u8>, b: Seq<u8>, i: int, k: int)
    requires
        a.len() == b.len(),
        0 <= i < k <= a.len(),
        a[i] != b[i],
        forall|j: int| 0 <= j < a.len() && j != i ==> #[trigger] a[j] == b[j],
    ensures
        crc_register(a.take(k)) != crc_register(b.take(k)),
    decreases k,
{
    assert(a.take(k).drop_last() =~= a.take(k - 1));
    assert(b.take(k).drop_last() =~= b.take(k - 1));
    if k == i + 1 {
        assert(a.take(i) =~= b.take(i)) by {
            assert forall|j: int| 0 <= j < i implies a.take(i)[j] == b.take(i)[j] by {
                assert(a[j] == b[j]);
            }
        }
        lemma_crc_byte_injective_byte(crc_register(a.take(i)), a[i], b[i]);
    } else {
        lemma_registers_differ_after(a, b, i, k - 1);
        assert(a[k - 1] == b[k - 1]);
        lemma_crc_byte_injective_register(
            crc_register(a.take(k - 1)),
            crc_register(b.take(k - 1)),
            a[k - 1],
        );
    }
}

/// A chunk changed in one byte is never confirmed: two byte sequences of the same length
/// that differ in exactly one position have different CRC-32 checksums, so the receiver's
/// reply for a payload with one changed byte does not match the checksum the sender kept.
pub proof fn law_changed_byte_detected(a: Seq<u8>, b: Seq<u8>, i: int)
    requires
        a.len() == b.len(),
        0 <= i < a.len(),
        a[i] != b[i],
        forall|j: int| 0 <= j < a.len() && j != i ==> #[trigger] a[j] == b[j],
    ensures
        crc32_of(a) != crc32_of(b),
        le_u32_value(u32_le_bytes(crc32_of(b))) != crc32_of(a),
{
    lemma_registers_differ_after(a, b, i, a.len() as int);
    assert(a.take(a.len() as int) =~= a);
    assert(b.take(b.len() as int) =~= b);
    lemma_xor_injective(crc_register(a), crc_register(b), 0xFFFFFFFFu32);
    law_u32_le_roundtrip(crc32_of(b));
}

/// `crc32_of` is the standard CRC-32: it gives the check value 0xCBF43926 on the ASCII
/// digits "123456789".
pub proof fn law_crc32_check_value()
    ensures
        crc32_of(seq![49u8, 50u8, 51u8, 52u8, 53u8, 54u8, 55u8, 56u8, 57u8]) == 0xCBF43926u32,
{
    let s = seq![49u8, 50u8, 51u8, 52u8, 53u8, 54u8, 55u8, 56u8, 57u8];
    assert(crc_byte(0xFFFFFFFFu32, 49u8) == 0x7C231048u32) by (bit_vector);
    assert(crc_byte(0x7C231048u32, 50u8) == 0xB0ACBB32u32) by (bit_vector);
    assert(crc_byte(0xB0ACBB32u32, 51u8) == 0x77B79C2Du32) by (bit_vector);
    assert(crc_byte(0x77B79C2Du32, 52u8) == 0x641C1F5Cu32) by (bit_vector);
    assert(crc_byte(0x641C1F5Cu32, 53u8) == 0x340AC5E3u32) by (bit_vector);
    assert(crc_byte(0x340AC5E3u32, 54u8) == 0xF68D2C9Eu32) by (bit_vector);
    assert(crc_byte(0xF68D2C9Eu32, 55u8) == 0xAFFC9660u32) by (bit_vector);
    assert(crc_byte(0xAFFC9660u32, 56u8) == 0x651F2550u32) by (bit_vector);
    assert(crc_byte(0x651F2550u32, 57u8) == 0x340BC6D9u32) by (bit_vector);
    assert(s.take(1).drop_last() =~= s.take(0));
    assert(s.take(1).last() == 49u8);
    assert(s.take(2).drop_last() =~= s.take(1));
    assert(s.take(2).last() == 50u8);
    assert(s.take(3).drop_last() =~= s.take(2));
    assert(s.take(3).last() == 51u8);
    assert(s.take(4).drop_last() =~= s.take(3));
    assert(s.take(4).last() == 52u8);
    assert(s.take(5).drop_last() =~= s.take(4));
    assert(s.take(5).last() == 53u8);
    assert(s.take(6).drop_last() =~= s.take(5));
    assert(s.take(6).last() == 54u8);
    assert(s.take(7).drop_last() =~= s.take(6));
    assert(s.take(7).last() == 55u8);
    assert(s.take(8).drop_last() =~= s.take(7));
    assert(s.take(8).last() == 56u8);
    assert(s.take(9).drop_last() =~= s.take(8));
    assert(s.take(9).last() == 57u8);
    assert(s.take(0).len() == 0);
    assert(crc_register(s.take(0)) == 0xFFFFFFFFu32);
    assert(crc_register(s.take(1)) == 0x7C231048u32);
    assert(crc_register(s.take(2)) == 0xB0ACBB32u32);
    assert(crc_register(s.take(3)) == 0x77B79C2Du32);
    assert(crc_register(s.take(4)) == 0x641C1F5Cu32);
    assert(crc_register(s.take(5)) == 0x340AC5E3u32);
    assert(crc_register(s.take(6)) == 0xF68D2C9Eu32);
    assert(crc_register(s.take(7)) == 0xAFFC9660u32);
    assert(crc_register(s.take(8)) == 0x651F2550u32);
    assert(crc_register(s.take(9)) == 0x340BC6D9u32);
    assert(s.take(9) =~= s);
    assert(0x340BC6D9u32 ^ 0xFFFFFFFFu32 == 0xCBF43926u32) by (bit_vector);
}

} // verus!
