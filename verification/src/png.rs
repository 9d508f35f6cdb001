//! The byte formats behind the minimal PNG writers: CRC-32 as PNG uses it,
//! Adler-32, DEFLATE "stored" blocks in a zlib wrapper, and PNG chunks.

use vstd::prelude::*;

verus! {

/// Largest payload of one DEFLATE stored block.
pub const BLOCK_MAX: usize = 65535;

/// Modulus of the Adler-32 sums.
pub const ADLER_MOD: u32 = 65521;

/// One bit-step of the reflected CRC-32 (polynomial 0xEDB88320).
pub open spec fn crc_shift(c: u32) -> u32 {
    if c & 1 != 0 {
        0xEDB8_8320u32 ^ (c >> 1u32)
    } else {
        c >> 1u32
    }
}

/// `k` bit-steps of the CRC-32 from `c`.
pub open spec fn crc_shifts(c: u32, k: nat) -> u32
    decreases k,
{
    if k == 0 {
        c
    } else {
        crc_shift(crc_shifts(c, (k - 1) as nat))
    }
}

/// Entry `n` of the CRC-32 lookup table: eight bit-steps from `n`.
pub open spec fn crc_table_entry(n: u32) -> u32 {
    crc_shifts(n, 8)
}

/// The running CRC register after feeding `bytes` into register `crc`,
/// one byte at a time through the lookup table.
pub open spec fn crc_update(crc: u32, bytes: Seq<u8>) -> u32
    decreases bytes.len(),
{
    if bytes.len() == 0 {
        crc
    } else {
        let c = crc_update(crc, bytes.drop_last());
        crc_table_entry((c ^ (bytes.last() as u32)) & 0xFF) ^ (c >> 8u32)
    }
}

/// The CRC-32 of a byte sequence (initial register all ones, final
/// complement), as PNG computes it over a chunk's type and data.
pub open spec fn crc32(bytes: Seq<u8>) -> u32 {
    crc_update(0xFFFF_FFFF, bytes) ^ 0xFFFF_FFFF
}

/// The two Adler-32 sums `(s1, s2)` after `data`.
pub open spec fn adler_sums(data: Seq<u8>) -> (int, int)
    decreases data.len(),
{
    if data.len() == 0 {
        (1, 0)
    } else {
        let (s1, s2) = adler_sums(data.drop_last());
        let t1 = (s1 + data.last()) % 65521;
        (t1, (s2 + t1) % 65521)
    }
}

/// The Adler-32 checksum: `s2 * 65536 + s1`.
pub open spec fn adler32_spec(data: Seq<u8>) -> u32 {
    let (s1, s2) = adler_sums(data);
    (s2 * 65536 + s1) as u32
}

/// The sum of the bytes of `data`.
pub open spec fn byte_total(data: Seq<u8>) -> int
    decreases data.len(),
{
    if data.len() == 0 {
        0
    } else {
        data[0] + byte_total(data.drop_first())
    }
}

/// The sum of `(n - i) * data[i]` over the `n` bytes of `data`: each byte
/// counted once for every prefix of `data` that holds it.
pub open spec fn prefix_weighted_total(data: Seq<u8>) -> int
    decreases data.len(),
{
    if data.len() == 0 {
        0
    } else {
        data.len() * data[0] + prefix_weighted_total(data.drop_first())
    }
}

proof fn lemma_byte_total_last(data: Seq<u8>)
    requires
        data.len() > 0,
    ensures
        byte_total(data) == byte_total(data.drop_last()) + data.last(),
    decreases data.len(),
{
    if data.len() > 1 {
        let rest = data.drop_first();
        lemma_byte_total_last(rest);
        assert(rest.drop_last() =~= data.drop_last().drop_first());
        assert(data.drop_last()[0] == data[0]);
        assert(rest.last() == data.last());
        assert(byte_total(data.drop_last()) == data[0] + byte_total(rest.drop_last()));
    } else {
        assert(byte_total(data.drop_first()) == 0);
        assert(byte_total(data.drop_last()) == 0);
    }
}

proof fn lemma_weighted_total_last(data: Seq<u8>)
    requires
        data.len() > 0,
    ensures
        prefix_weighted_total(data) == prefix_weighted_total(data.drop_last()) + byte_total(data),
    decreases data.len(),
{
    let n = data.len() as int;
    let d0 = data[0] as int;
    let rest = data.drop_first();
    if n > 1 {
        lemma_weighted_total_last(rest);
        assert(rest.drop_last() =~= data.drop_last().drop_first());
        assert(data.drop_last()[0] == data[0]);
        assert(n * d0 == (n - 1) * d0 + d0) by (nonlinear_arith);
        assert(prefix_weighted_total(data.drop_last()) == (n - 1) * d0 + prefix_weighted_total(
            rest.drop_last(),
        ));
        assert(byte_total(data) == d0 + byte_total(rest));
    } else {
        assert(prefix_weighted_total(rest) == 0);
        assert(byte_total(rest) == 0);
        assert(prefix_weighted_total(data.drop_last()) == 0);
    }
}

/// Adler-32 as RFC 1950 defines it: `s1` is one plus the sum of the bytes,
/// `s2` the sum of the successive values of `s1` (each byte weighted by the
/// number of prefixes holding it, plus one per byte), both modulo the prime
/// 65521; the checksum is `s2 * 65536 + s1`.
pub proof fn lemma_adler_closed_form(data: Seq<u8>)
    ensures
        adler_sums(data) == (
            (1 + byte_total(data)) % 65521,
            (data.len() + prefix_weighted_total(data)) % 65521,
        ),
        0 <= adler_sums(data).0 < 65521,
        0 <= adler_sums(data).1 < 65521,
        adler32_spec(data) as int == ((data.len() + prefix_weighted_total(data)) % 65521) * 65536 + (1
            + byte_total(data)) % 65521,
    decreases data.len(),
{
    let m: int = 65521;
    if data.len() > 0 {
        let dl = data.drop_last();
        lemma_adler_closed_form(dl);
        lemma_byte_total_last(data);
        lemma_weighted_total_last(data);
        let t = 1 + byte_total(dl);
        let w = dl.len() + prefix_weighted_total(dl);
        vstd::arithmetic::div_mod::lemma_add_mod_noop_right(data.last() as int, t, m);
        vstd::arithmetic::div_mod::lemma_add_mod_noop(w, t + data.last(), m);
    }
    let (s1, s2) = adler_sums(data);
    assert(0 <= s2 * 65536 + s1 < 0x1_0000_0000) by (nonlinear_arith)
        requires
            0 <= s1 < 65521,
            0 <= s2 < 65521,
    ;
}

/// The four big-endian bytes of `v`.
pub open spec fn be32(v: u32) -> Seq<u8> {
    seq![(v / 0x100_0000) as u8, ((v / 0x1_0000) % 256) as u8, ((v / 256) % 256) as u8, (v % 256) as u8]
}

/// One stored block: the final-block flag byte, the little-endian length,
/// its complement, then the payload (at most `BLOCK_MAX` bytes).
pub open spec fn stored_block(is_final: bool, chunk: Seq<u8>) -> Seq<u8> {
    let len = chunk.len() as int;
    let nlen = 65535 - len;
    seq![
        if is_final { 1u8 } else { 0u8 },
        (len % 256) as u8,
        (len / 256) as u8,
        (nlen % 256) as u8,
        (nlen / 256) as u8,
    ] + chunk
}

/// `data` cut into stored blocks of `BLOCK_MAX` bytes, the last one
/// (possibly empty) flagged final.
pub open spec fn stored_blocks(data: Seq<u8>) -> Seq<u8>
    decreases data.len(),
{
    if data.len() <= 65535 {
        stored_block(true, data)
    } else {
        stored_block(false, data.take(65535)) + stored_blocks(data.skip(65535))
    }
}

/// A zlib stream holding `data` uncompressed: header `78 01`, the stored
/// blocks, then the big-endian Adler-32 of `data`.
pub open spec fn zlib_stored(data: Seq<u8>) -> Seq<u8> {
    seq![0x78u8, 0x01u8] + stored_blocks(data) + be32(adler32_spec(data))
}

/// A PNG chunk: big-endian length (truncated to 32 bits), type, data, and the CRC-32
/// of type and data.
pub open spec fn png_chunk(tag: Seq<u8>, data: Seq<u8>) -> Seq<u8> {
    be32(data.len() as u32) + tag + data + be32(crc32(tag + data))
}

/// Computes the CRC-32 lookup table.
pub fn crc32_table() -> (table: [u32; 256])
    ensures
        forall|n: int| 0 <= n < 256 ==> #[trigger] table@[n] == crc_table_entry(n as u32),
{
    let mut table = [0u32; 256];
    let mut n: u32 = 0;
    while n < 256
        invariant
            n <= 256,
            forall|j: int| 0 <= j < n ==> #[trigger] table@[j] == crc_table_entry(j as u32),
        decreases 256 - n,
    {
        let mut c = n;
        let mut k: u32 = 0;
        while k < 8
            invariant
                k <= 8,
                c == crc_shifts(n, k as nat),
            decreases 8 - k,
        {
            if c & 1 != 0 {
                c = 0xEDB8_8320 ^ (c >> 1);
            } else {
                c = c >> 1;
            }
            k += 1;
        }
        table[n as usize] = c;
        n += 1;
    }
    table
}

/// Feeds `bytes` into the CRC register `crc` using `table`.
pub fn crc_feed(table: &[u32; 256], crc: u32, bytes: &[u8]) -> (out: u32)
    requires
        forall|n: int| 0 <= n < 256 ==> #[trigger] table@[n] == crc_table_entry(n as u32),
    ensures
        out == crc_update(crc, bytes@),
{
    let mut c = crc;
    let mut i: usize = 0;
    while i < bytes.len()
        invariant
            i <= bytes@.len(),
            c == crc_update(crc, bytes@.take(i as int)),
            forall|n: int| 0 <= n < 256 ==> #[trigger] table@[n] == crc_table_entry(n as u32),
        decreases bytes@.len() - i,
    {
        proof {
            assert(bytes@.take(i + 1).drop_last() =~= bytes@.take(i as int));
        }
        let b = bytes[i] as u32;
        let idx = (c ^ b) & 0xFF;
        proof {
            assert(idx < 256) by (bit_vector)
                requires idx == (c ^ b) & 0xFF;
        }
        c = table[idx as usize] ^ (c >> 8);
        i += 1;
    }
    proof {
        assert(bytes@.take(bytes@.len() as int) =~= bytes@);
    }
    c
}

/// Adler-32 checksum of `data`.
pub fn adler32(data: &[u8]) -> (a: u32)
    ensures
        a == adler32_spec(data@),
{
    let mut s1: u32 = 1;
    let mut s2: u32 = 0;
    let mut i: usize = 0;
    while i < data.len()
        invariant
            i <= data@.len(),
            (s1 as int, s2 as int) == adler_sums(data@.take(i as int)),
            s1 < 65521,
            s2 < 65521,
        decreases data@.len() - i,
    {
        proof {
            assert(data@.take(i + 1).drop_last() =~= data@.take(i as int));
        }
        s1 = (s1 + data[i] as u32) % 65521;
        s2 = (s2 + s1) % 65521;
        i += 1;
    }
    proof {
        assert(data@.take(data@.len() as int) =~= data@);
        assert((s2 << 16u32) | s1 == s2 * 65536 + s1) by (bit_vector)
            requires s1 < 65521u32, s2 < 65521u32;
    }
    (s2 << 16) | s1
}

/// Appends the big-endian bytes of `v`.
pub fn push_be32(out: &mut Vec<u8>, v: u32)
    ensures
        final(out)@ == old(out)@ + be32(v),
{
    out.push((v >> 24) as u8);
    out.push(((v >> 16) & 0xFF) as u8);
    out.push(((v >> 8) & 0xFF) as u8);
    out.push((v & 0xFF) as u8);
    proof {
        assert((v >> 24u32) == v / 0x100_0000) by (bit_vector);
        assert(((v >> 16u32) & 0xFF) == (v / 0x1_0000) % 256) by (bit_vector);
        assert(((v >> 8u32) & 0xFF) == (v / 256) % 256) by (bit_vector);
        assert((v & 0xFF) == v % 256) by (bit_vector);
        assert(final(out)@ =~= old(out)@ + be32(v));
    }
}

/// Appends `data[from..to]` as one stored block.
pub fn push_stored_block(out: &mut Vec<u8>, is_final: bool, data: &[u8], from: usize, to: usize)
    requires
        from <= to <= data@.len(),
        to - from <= 65535,
    ensures
        final(out)@ == old(out)@ + stored_block(is_final, data@.subrange(from as int, to as int)),
{
    let len = (to - from) as u16;
    let nlen = !len;
    proof {
        assert(nlen == 65535 - len) by (bit_vector)
            requires nlen == !len;
    }
    out.push(if is_final { 1 } else { 0 });
    out.push((len & 0xFF) as u8);
    out.push((len >> 8) as u8);
    out.push((nlen & 0xFF) as u8);
    out.push((nlen >> 8) as u8);
    proof {
        assert((len & 0xFF) == len % 256) by (bit_vector);
        assert((len >> 8u16) == len / 256) by (bit_vector);
        assert((nlen & 0xFF) == nlen % 256) by (bit_vector);
        assert((nlen >> 8u16) == nlen / 256) by (bit_vector);
    }
    let ghost head = out@;
    let mut i = from;
    while i < to
        invariant
            from <= i <= to,
            to <= data@.len(),
            out@ == head + data@.subrange(from as int, i as int),
        decreases to - i,
    {
        out.push(data[i]);
        i += 1;
        proof {
            assert(out@ =~= head + data@.subrange(from as int, i as int));
        }
    }
    proof {
        assert(final(out)@ =~= old(out)@ + stored_block(is_final, data@.subrange(from as int, to as int)));
    }
}

/// The stored blocks of `data[from..]`, as `stored_blocks` of that suffix.
proof fn lemma_stored_blocks_step(data: Seq<u8>, from: int)
    requires
        0 <= from,
        from + 65535 < data.len(),
    ensures
        stored_blocks(data.skip(from)) == stored_block(false, data.subrange(from, from + 65535))
            + stored_blocks(data.skip(from + 65535)),
{
    assert(data.skip(from).take(65535) =~= data.subrange(from, from + 65535));
    assert(data.skip(from).skip(65535) =~= data.skip(from + 65535));
}

/// Appends `data` as a sequence of stored blocks, the last one final.
pub fn push_stored_blocks(out: &mut Vec<u8>, data: &[u8])
    ensures
        final(out)@ == old(out)@ + stored_blocks(data@),
{
    let ghost head = out@;
    let mut from: usize = 0;
    proof {
        assert(data@.skip(0) =~= data@);
    }
    while data.len() - from > 65535
        invariant
            from <= data@.len(),
            head + stored_blocks(data@) == out@ + stored_blocks(data@.skip(from as int)),
        decreases data@.len() - from,
    {
        proof {
            lemma_stored_blocks_step(data@, from as int);
        }
        let ghost before = out@;
        push_stored_block(out, false, data, from, from + 65535);
        proof {
            assert(before + (stored_block(false, data@.subrange(from as int, from + 65535))
                + stored_blocks(data@.skip(from + 65535))) =~= out@ + stored_blocks(data@.skip(from + 65535)));
        }
        from = from + 65535;
    }
    push_stored_block(out, true, data, from, data.len());
    proof {
        assert(data@.skip(from as int) =~= data@.subrange(from as int, data@.len() as int));
        assert(head + stored_blocks(data@) =~= final(out)@);
    }
}

/// Appends a PNG chunk of the given type and data.
pub fn push_png_chunk(out: &mut Vec<u8>, table: &[u32; 256], tag: &[u8], data: &[u8])
    requires
        forall|n: int| 0 <= n < 256 ==> #[trigger] table@[n] == crc_table_entry(n as u32),
    ensures
        final(out)@ == old(out)@ + png_chunk(tag@, data@),
{
    let ghost start = out@;
    push_be32(out, data.len() as u32);
    let mut i: usize = 0;
    let ghost head = out@;
    while i < tag.len()
        invariant
            i <= tag@.len(),
            out@ == head + tag@.take(i as int),
        decreases tag@.len() - i,
    {
        out.push(tag[i]);
        i += 1;
        proof {
            assert(out@ =~= head + tag@.take(i as int));
        }
    }
    let ghost head2 = out@;
    i = 0;
    while i < data.len()
        invariant
            i <= data@.len(),
            out@ == head2 + data@.take(i as int),
        decreases data@.len() - i,
    {
        out.push(data[i]);
        i += 1;
        proof {
            assert(out@ =~= head2 + data@.take(i as int));
        }
    }
    let crc = crc_feed(table, crc_feed(table, 0xFFFF_FFFF, tag), data);
    proof {
        lemma_crc_update_append(0xFFFF_FFFF, tag@, data@);
    }
    proof {
        assert(tag@.take(tag@.len() as int) =~= tag@);
        assert(data@.take(data@.len() as int) =~= data@);
        assert(crc ^ 0xFFFF_FFFF == crc32(tag@ + data@));
    }
    let ghost body = out@;
    push_be32(out, crc ^ 0xFFFF_FFFF);
    proof {
        assert(body =~= start + be32(data.len() as u32) + tag@ + data@);
        assert(out@ =~= start + png_chunk(tag@, data@));
    }
}

/// Feeding two byte sequences one after the other is feeding their
/// concatenation.
pub proof fn lemma_crc_update_append(crc: u32, a: Seq<u8>, b: Seq<u8>)
    ensures
        crc_update(crc_update(crc, a), b) == crc_update(crc, a + b),
    decreases b.len(),
{
    if b.len() > 0 {
        lemma_crc_update_append(crc, a, b.drop_last());
        assert((a + b).drop_last() =~= a + b.drop_last());
        assert((a + b).last() == b.last());
    } else {
        assert(a + b =~= a);
    }
}

/// Appends a zlib stream holding `data` in stored blocks.
pub fn push_zlib_stored(out: &mut Vec<u8>, data: &[u8])
    ensures
        final(out)@ == old(out)@ + zlib_stored(data@),
{
    out.push(0x78);
    out.push(0x01);
    push_stored_blocks(out, data);
    let adler = adler32(data);
    push_be32(out, adler);
    proof {
        assert(final(out)@ =~= old(out)@ + zlib_stored(data@));
    }
}

} // verus!
