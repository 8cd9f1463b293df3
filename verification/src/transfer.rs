//! Chunked transfer coding seen from both ends: the chunks the server
//! writes (`chunk_block`) are the chunks the request reader takes back
//! (`scan_chunks`).
use vstd::prelude::*;
use crate::http::{ascii_chars, chunk_size, crlf_at, find_crlf_from, scan_chunks, scan_error, ChunkScanEnd};
use crate::server::chunk_block;
use crate::text::{digit_char, digit_value, digits_value, hex_upper, parse_unsigned, radix_digits};

verus! {

/// The bytes of characters that are all ASCII.
pub open spec fn ascii_bytes(s: Seq<char>) -> Seq<u8> {
    s.map_values(|c: char| (c as u32) as u8)
}

/// Every character is ASCII.
pub open spec fn all_ascii(s: Seq<char>) -> bool {
    forall|i: int| 0 <= i < s.len() ==> (#[trigger] s[i] as u32) < 128
}

/// UTF-8 writes ASCII characters one byte each.
pub proof fn lemma_encode_ascii(s: Seq<char>)
    requires
        all_ascii(s),
    ensures
        vstd::utf8::encode_utf8(s) == ascii_bytes(s),
    decreases s.len(),
{
    if s.len() > 0 {
        let v = s[0] as u32;
        assert(v < 128);
        assert((v & 0x7Fu32) == v) by (bit_vector)
            requires
                v < 128,
        ;
        let t = s.drop_first();
        assert forall|i: int| 0 <= i < t.len() implies (#[trigger] t[i] as u32) < 128 by {
            assert(t[i] == s[i + 1]);
        }
        lemma_encode_ascii(t);
        assert(vstd::utf8::encode_utf8(s) == vstd::utf8::encode_scalar(v) + vstd::utf8::encode_utf8(t));
        assert(vstd::utf8::encode_scalar(v) =~= seq![v as u8]);
        assert(ascii_bytes(s) =~= seq![v as u8] + ascii_bytes(t));
    }
}

/// Reading the bytes of ASCII characters back gives the characters.
pub proof fn lemma_ascii_chars_back(s: Seq<char>)
    requires
        all_ascii(s),
    ensures
        ascii_chars(ascii_bytes(s)) == Some(s),
{
    let b = ascii_bytes(s);
    assert forall|i: int| 0 <= i < b.len() implies #[trigger] b[i] < 128u8 by {
        assert(b[i] == (s[i] as u32) as u8);
        assert((s[i] as u32) < 128);
    }
    let back = b.map_values(|x: u8| x as char);
    assert(back =~= s) by {
        assert forall|i: int| 0 <= i < s.len() implies #[trigger] back[i] == s[i] by {
            let u = s[i] as u32;
            assert(u < 128);
            assert(b[i] == u as u8);
            vstd::utf8::char_u32_cast(s[i], u);
            assert((u as u8) as char == s[i]);
        }
    }
}

/// The digits of a number in base 16 are ASCII, none is `+`, and each is
/// read back as the digit it stands for.
pub proof fn lemma_digit_char(d: nat)
    requires
        d < 16,
    ensures
        (digit_char(d) as u32) < 128,
        (digit_char(d) as u32) != 13,
        digit_char(d) != '+',
        digit_value(digit_char(d), 16) == Some(d),
        d < 10 ==> digit_char(d) as u32 == d + 48,
{
}

proof fn lemma_hex_digits(n: nat)
    ensures
        radix_digits(n, 16).len() > 0,
        forall|i: int| 0 <= i < radix_digits(n, 16).len() ==> exists|d: nat| d < 16 && #[trigger] radix_digits(n, 16)[i] == digit_char(d),
        digits_value(radix_digits(n, 16), 16) == Some(n),
    decreases n,
{
    if n < 16 {
        lemma_digit_char(n);
        assert(radix_digits(n, 16) =~= seq![digit_char(n)]);
        assert(radix_digits(n, 16).drop_last() =~= Seq::<char>::empty());
        assert(digits_value(Seq::<char>::empty(), 16) == Some(0nat));
        assert(digits_value(radix_digits(n, 16), 16) == Some(0 * 16 + n));
    } else {
        let q = n / 16;
        let m = n % 16;
        assert(q < n);
        lemma_hex_digits(q);
        lemma_digit_char(m);
        let s = radix_digits(n, 16);
        assert(s == radix_digits(q, 16) + seq![digit_char(m)]);
        assert(s.drop_last() =~= radix_digits(q, 16));
        assert(s.last() == digit_char(m));
        assert(q * 16 + m == n);
        assert(digits_value(s, 16) == Some(q * 16 + m));
        assert forall|i: int| 0 <= i < s.len() implies exists|d: nat| d < 16 && #[trigger] s[i] == digit_char(d) by {
            if i < s.len() - 1 {
                assert(s[i] == radix_digits(q, 16)[i]);
            } else {
                assert(s[i] == digit_char(m));
            }
        }
    }
}

/// Upper-case hexadecimal: ASCII, without `\r`, and read back as the number.
pub proof fn lemma_hex_upper(n: nat)
    requires
        n <= usize::MAX,
    ensures
        all_ascii(hex_upper(n)),
        forall|i: int| 0 <= i < hex_upper(n).len() ==> (#[trigger] hex_upper(n)[i] as u32) != 13,
        hex_upper(n).len() > 0,
        parse_unsigned(hex_upper(n), 16, usize::MAX as nat) == Some(n),
{
    lemma_hex_digits(n);
    let s = hex_upper(n);
    assert forall|i: int| 0 <= i < s.len() implies (#[trigger] s[i] as u32) < 128 && (s[i] as u32) != 13 by {
        let d = choose|d: nat| d < 16 && #[trigger] radix_digits(n, 16)[i] == digit_char(d);
        lemma_digit_char(d);
    }
    let d0 = choose|d: nat| d < 16 && #[trigger] radix_digits(n, 16)[0] == digit_char(d);
    lemma_digit_char(d0);
    assert(s[0] != '+');
}

/// The first `\r\n` at or after `i` is the one at `k`.
proof fn lemma_find_crlf_at(b: Seq<u8>, i: int, k: int)
    requires
        0 <= i <= k,
        crlf_at(b, k),
        forall|j: int| i <= j < k ==> #[trigger] b[j] != 13u8,
    ensures
        find_crlf_from(b, i) == Some(k),
    decreases k - i,
{
    if i < k {
        lemma_find_crlf_at(b, i + 1, k);
    }
}

/// The bytes written for one chunk.
pub open spec fn chunk_head(c: Seq<u8>) -> Seq<u8> {
    vstd::utf8::encode_utf8(hex_upper(c.len()) + "\r\n"@) + c + vstd::utf8::encode_utf8("\r\n"@)
}

/// The chunks are written one after the other, the first one first.
proof fn lemma_chunk_block_front(cs: Seq<Seq<u8>>)
    requires
        cs.len() > 0,
    ensures
        chunk_block(cs) == chunk_head(cs[0]) + chunk_block(cs.drop_first()),
    decreases cs.len(),
{
    if cs.len() == 1 {
        assert(cs.drop_last() =~= Seq::<Seq<u8>>::empty());
        assert(cs.drop_first() =~= Seq::<Seq<u8>>::empty());
        assert(chunk_block(cs.drop_last()) =~= Seq::<u8>::empty());
        assert(cs.last() == cs[0]);
        assert(chunk_block(cs) =~= chunk_head(cs[0]));
        assert(chunk_block(cs.drop_first()) =~= Seq::<u8>::empty());
    } else {
        let d = cs.drop_last();
        lemma_chunk_block_front(d);
        assert(d[0] == cs[0]);
        assert(d.drop_first() =~= cs.drop_first().drop_last());
        assert(cs.drop_first().last() == cs.last());
        assert(chunk_block(cs) =~= chunk_head(cs[0]) + chunk_block(cs.drop_first()));
    }
}

/// The bytes of the last chunk and the end of the body.
pub open spec fn last_chunk() -> Seq<u8> {
    vstd::utf8::encode_utf8("0\r\n\r\n"@)
}

/// Reading chunks from where the written chunks start gives them back,
/// then stops at the last chunk.
#[verifier::rlimit(40)]
proof fn lemma_scan_written(b: Seq<u8>, p: int, cs: Seq<Seq<u8>>)
    requires
        0 <= p <= b.len(),
        b.subrange(p, b.len() as int) == chunk_block(cs) + last_chunk(),
        forall|i: int| 0 <= i < cs.len() ==> 0 < (#[trigger] cs[i]).len() <= usize::MAX,
    ensures
        scan_chunks(b, p) == (cs, ChunkScanEnd::LastChunk),
    decreases cs.len(),
{
    let rem = b.subrange(p, b.len() as int);
    reveal_strlit("0\r\n\r\n");
    reveal_strlit("\r\n");
    let zero: Seq<char> = "0\r\n\r\n"@;
    assert(all_ascii(zero));
    lemma_encode_ascii(zero);
    let crlf: Seq<char> = "\r\n"@;
    assert(all_ascii(crlf));
    lemma_encode_ascii(crlf);
    if cs.len() == 0 {
        assert(chunk_block(cs) =~= Seq::<u8>::empty());
        assert(rem =~= seq![48u8, 13u8, 10u8, 13u8, 10u8]);
        lemma_find_crlf_at(rem, 0, 1);
        lemma_digit_char(0);
        let one: Seq<char> = seq![digit_char(0)];
        assert(all_ascii(one));
        assert(rem.take(1) =~= ascii_bytes(one));
        lemma_ascii_chars_back(one);
        assert(one.drop_last() =~= Seq::<char>::empty());
        assert(one.last() == digit_char(0));
        assert(digits_value(one.drop_last(), 16) == Some(0nat));
        assert(digits_value(one, 16) == Some(0 * 16 + 0nat));
        assert(parse_unsigned(one, 16, usize::MAX as nat) == Some(0nat));
        assert(chunk_size(rem.take(1)) == Some(0nat));
    } else {
        let c = cs[0];
        let n = c.len();
        lemma_chunk_block_front(cs);
        lemma_hex_upper(n);
        let hex = hex_upper(n);
        let l = hex.len() as int;
        let line = hex + crlf;
        assert(all_ascii(line)) by {
            assert forall|i: int| 0 <= i < line.len() implies (#[trigger] line[i] as u32) < 128 by {
                if i < l {
                    assert(line[i] == hex[i]);
                } else {
                    assert(line[i] == crlf[i - l]);
                }
            }
        }
        lemma_encode_ascii(line);
        lemma_encode_ascii(hex);
        let rest = chunk_block(cs.drop_first()) + last_chunk();
        assert(rem =~= ascii_bytes(hex) + seq![13u8, 10u8] + c + seq![13u8, 10u8] + rest);
        assert forall|j: int| 0 <= j < l implies #[trigger] rem[j] != 13u8 by {
            assert(rem[j] == (hex[j] as u32) as u8);
            assert((hex[j] as u32) != 13);
        }
        lemma_find_crlf_at(rem, 0, l);
        assert(rem.take(l) =~= ascii_bytes(hex));
        lemma_ascii_chars_back(hex);
        assert(chunk_size(rem.take(l)) == Some(n));
        assert(rem.subrange(l + 2, l + 2 + n) =~= c);
        let p2 = p + l + n + 4;
        assert(rem.skip(l + n + 4) =~= rest);
        assert(b.subrange(p2, b.len() as int) =~= rem.skip(l + n + 4));
        assert forall|i: int| 0 <= i < cs.drop_first().len() implies 0 < (#[trigger] cs.drop_first()[i]).len() <= usize::MAX by {
            assert(cs.drop_first()[i] == cs[i + 1]);
        }
        lemma_scan_written(b, p2, cs.drop_first());
        assert(seq![c] + cs.drop_first() =~= cs);
    }
}

/// What the server writes for a chunked body (every chunk non-empty, then
/// the last chunk) is read back by the request reader as the same chunks,
/// ending at the last chunk and with no error: decoding the framing
/// (`parse_chunks`, `HttpRequest::append_chunk`) gives the chunks back,
/// also where a chunk itself holds `\r\n`.
pub proof fn law_chunked_round_trip(cs: Seq<Seq<u8>>)
    requires
        forall|i: int| 0 <= i < cs.len() ==> 0 < (#[trigger] cs[i]).len() <= usize::MAX,
    ensures
        scan_chunks(chunk_block(cs) + last_chunk(), 0) == (cs, ChunkScanEnd::LastChunk),
        scan_error(scan_chunks(chunk_block(cs) + last_chunk(), 0).1) is None,
{
    let b = chunk_block(cs) + last_chunk();
    assert(b.subrange(0, b.len() as int) =~= b);
    lemma_scan_written(b, 0, cs);
}

/// A script's output sent in chunks of `CHUNK_SIZE` bytes is read back
/// by the request reader as the same bytes.
pub proof fn law_cgi_output_round_trip(output: Seq<u8>)
    ensures
        scan_chunks(
            chunk_block(crate::cgi::chunk_split(output, crate::cgi::CHUNK_SIZE as nat)) + last_chunk(),
            0,
        ).0.flatten() == output,
        scan_chunks(
            chunk_block(crate::cgi::chunk_split(output, crate::cgi::CHUNK_SIZE as nat)) + last_chunk(),
            0,
        ).1 == ChunkScanEnd::LastChunk,
{
    let cs = crate::cgi::chunk_split(output, crate::cgi::CHUNK_SIZE as nat);
    crate::cgi::lemma_chunk_split_flatten(output, crate::cgi::CHUNK_SIZE as nat);
    assert forall|i: int| 0 <= i < cs.len() implies 0 < (#[trigger] cs[i]).len() <= usize::MAX by {
        assert(cs[i].len() <= crate::cgi::CHUNK_SIZE);
    }
    law_chunked_round_trip(cs);
}

/// A chunked request that is handed the body the server writes for
/// these chunks (`append_chunk`) gains exactly these chunks and then the
/// empty chunk that makes it complete, without an error.
pub proof fn law_written_body_completes_request(cs: Seq<Seq<u8>>)
    requires
        forall|i: int| 0 <= i < cs.len() ==> 0 < (#[trigger] cs[i]).len() <= usize::MAX,
    ensures
        ({
            let scan = scan_chunks(chunk_block(cs) + last_chunk(), 0);
            &&& scan_error(scan.1) is None
            &&& scan.0 + (if scan.1 == ChunkScanEnd::LastChunk {
                seq![Seq::<u8>::empty()]
            } else {
                seq![]
            }) == cs.push(Seq::<u8>::empty())
        }),
{
    law_chunked_round_trip(cs);
    assert(cs + seq![Seq::<u8>::empty()] =~= cs.push(Seq::<u8>::empty()));
}

} // verus!
