//! liblzf stream codec as used for Krita tile payloads, and the stored-tile framing
//! (`[1-byte flag][payload]`, flag `1` = LZF-compressed, `0` = raw).

use vstd::prelude::*;

verus! {

/// Append `n` bytes to `out`, each copied from `out` itself starting at position `r` — the
/// (possibly overlapping) back-reference copy of LZF.
pub open spec fn copy_back(out: Seq<u8>, r: int, n: nat) -> Seq<u8>
    decreases n,
{
    if n == 0 {
        out
    } else {
        copy_back(out.push(out[r]), r + 1, (n - 1) as nat)
    }
}

/// Byte length of the token that starts `data` (`None` when `data` is empty).
pub open spec fn token_len(data: Seq<u8>) -> int {
    let ctrl = data[0];
    if ctrl < 32 {
        ctrl + 2
    } else if ctrl / 32 == 7 {
        3
    } else {
        2
    }
}

/// Decode the LZF stream `data` onto the already-produced output `out`. `None` on a truncated
/// token or a back-reference before the start of the output.
pub open spec fn lzf_decode_from(data: Seq<u8>, out: Seq<u8>) -> Option<Seq<u8>>
    decreases data.len(),
{
    if data.len() == 0 {
        Some(out)
    } else {
        let ctrl = data[0];
        if ctrl < 32 {
            let n = ctrl + 1;
            if 1 + n > data.len() {
                None
            } else {
                lzf_decode_from(data.skip(1 + n), out + data.subrange(1, 1 + n))
            }
        } else {
            let ext: int = if ctrl / 32 == 7 { 1 } else { 0 };
            if 2 + ext > data.len() {
                None
            } else {
                let l: int = if ctrl / 32 == 7 { 7 + data[1] } else { (ctrl / 32) as int };
                let off: int = (ctrl % 32) * 256 + data[1 + ext];
                if off + 1 > out.len() {
                    None
                } else {
                    lzf_decode_from(
                        data.skip(2 + ext),
                        copy_back(out, out.len() - (off + 1), (l + 2) as nat),
                    )
                }
            }
        }
    }
}

/// The bytes a whole LZF stream decodes to.
pub open spec fn lzf_decode(data: Seq<u8>) -> Option<Seq<u8>> {
    lzf_decode_from(data, Seq::empty())
}

proof fn lemma_copy_back_len(out: Seq<u8>, r: int, n: nat)
    requires
        0 <= r < out.len(),
    ensures
        copy_back(out, r, n).len() == out.len() + n,
    decreases n,
{
    if n > 0 {
        lemma_copy_back_len(out.push(out[r]), r + 1, (n - 1) as nat);
    }
}

/// Decoding a concatenation whose first part decodes on its own continues with the second part.
proof fn lemma_decode_concat(a: Seq<u8>, b: Seq<u8>, o: Seq<u8>)
    requires
        lzf_decode_from(a, o) is Some,
    ensures
        lzf_decode_from(a + b, o) == lzf_decode_from(b, lzf_decode_from(a, o).unwrap()),
    decreases a.len(),
{
    if a.len() == 0 {
        assert(a + b =~= b);
    } else {
        let ab = a + b;
        assert(ab[0] == a[0]);
        let ctrl = a[0];
        if ctrl < 32 {
            let n = ctrl + 1;
            assert(ab.subrange(1, 1 + n) =~= a.subrange(1, 1 + n));
            assert(ab.skip(1 + n) =~= a.skip(1 + n) + b);
            lemma_decode_concat(a.skip(1 + n), b, o + a.subrange(1, 1 + n));
        } else {
            let ext: int = if ctrl / 32 == 7 { 1 } else { 0 };
            assert(ab[1] == a[1]);
            assert(ab[1 + ext] == a[1 + ext]);
            assert(ab.skip(2 + ext) =~= a.skip(2 + ext) + b);
            let l: int = if ctrl / 32 == 7 { 7 + a[1] } else { (ctrl / 32) as int };
            let off: int = (ctrl % 32) * 256 + a[1 + ext];
            lemma_decode_concat(
                a.skip(2 + ext),
                b,
                copy_back(o, o.len() - (off + 1), (l + 2) as nat),
            );
        }
    }
}

/// An overlapping copy whose source run matches its destination run extends the prefix.
proof fn lemma_copy_back_match(data: Seq<u8>, m: int, r: int, n: nat)
    requires
        0 <= r < m,
        m + n <= data.len(),
        forall|k: int| m <= k < m + n ==> #[trigger] data[k] == data[k - (m - r)],
    ensures
        copy_back(data.subrange(0, m), r, n) == data.subrange(0, m + n),
    decreases n,
{
    if n > 0 {
        assert(data.subrange(0, m)[r] == data[r]);
        assert(data[m] == data[m - (m - r)]);
        assert(data.subrange(0, m).push(data.subrange(0, m)[r]) =~= data.subrange(0, m + 1));
        lemma_copy_back_match(data, m + 1, r + 1, (n - 1) as nat);
    }
}

/// Decompress a liblzf stream into exactly `expected` bytes. `None` on any malformed input, and
/// on a well-formed stream that holds some other number of bytes.
pub fn lzf_decompress(data: &[u8], expected: usize) -> (r: Option<Vec<u8>>)
    ensures
        match r {
            Some(v) => lzf_decode(data@) == Some(v@) && v@.len() == expected,
            None => !(lzf_decode(data@) matches Some(d) && d.len() == expected),
        },
{
    let mut out: Vec<u8> = Vec::new();
    let mut ip: usize = 0;
    assert(data@.skip(0) =~= data@);
    while ip < data.len()
        invariant
            ip <= data.len(),
            lzf_decode_from(data@.skip(ip as int), out@) == lzf_decode(data@),
        decreases data.len() - ip,
    {
        let ghost rest = data@.skip(ip as int);
        assert(rest[0] == data[ip as int]);
        let ctrl: u8 = data[ip];
        ip = ip + 1;
        if ctrl < 32 {
            let len: usize = ctrl as usize + 1;
            if len > data.len() - ip {
                return None;
            }
            let end = ip + len;
            let ghost before = out@;
            let mut k: usize = ip;
            while k < end
                invariant
                    ip <= k <= end <= data.len(),
                    out@ == before + data@.subrange(ip as int, k as int),
                decreases end - k,
            {
                out.push(data[k]);
                proof {
                    assert(data@.subrange(ip as int, k + 1) =~= data@.subrange(ip as int, k as int).push(data[k as int]));
                }
                k = k + 1;
            }
            proof {
                assert(rest.subrange(1, 1 + len) =~= data@.subrange(ip as int, end as int));
                assert(rest.skip(1 + len) =~= data@.skip(end as int));
            }
            ip = end;
        } else {
            let mut len: usize = (ctrl >> 5) as usize;
            proof {
                assert((ctrl >> 5) == ctrl / 32) by (bit_vector);
                assert((ctrl & 0x1f) == ctrl % 32) by (bit_vector);
            }
            let ext: usize = if len == 7 { 1 } else { 0 };
            if len == 7 {
                if ip >= data.len() {
                    return None;
                }
                len = len + data[ip] as usize;
                ip = ip + 1;
            }
            if ip >= data.len() {
                return None;
            }
            let off: usize = ((ctrl & 0x1f) as usize) * 256 + data[ip] as usize;
            ip = ip + 1;
            if off + 1 > out.len() {
                return None;
            }
            proof {
                assert(rest[1 + ext] == data[ip - 1]);
                if ext == 1 {
                    assert(rest[1] == data[ip - 2]);
                }
                assert(rest.skip(2 + ext) =~= data@.skip(ip as int));
            }
            let mut r: usize = out.len() - (off + 1);
            let n: usize = len + 2;
            let ghost before = out@;
            let ghost r0 = r;
            let mut i: usize = 0;
            while i < n
                invariant
                    i <= n,
                    r == r0 + i,
                    r0 < before.len(),
                    r < out@.len(),
                    out@.len() == before.len() + i,
                    copy_back(before, r0 as int, n as nat) == copy_back(out@, r as int, (n - i) as nat),
                decreases n - i,
            {
                let b = out[r];
                let cur = out.len();
                assert(r < cur);
                out.push(b);
                r = r + 1;
                i = i + 1;
            }
        }
    }
    proof {
        assert(data@.skip(ip as int).len() == 0);
    }
    if out.len() != expected {
        return None;
    }
    Some(out)
}

/// A literal run `data[from..to]` emitted as tokens onto `out`.
fn flush_lit(out: &mut Vec<u8>, data: &[u8], from: usize, to: usize)
    requires
        from <= to <= data.len(),
        lzf_decode(old(out)@) == Some(data@.subrange(0, from as int)),
    ensures
        lzf_decode(final(out)@) == Some(data@.subrange(0, to as int)),
        to - from <= 32 ==> final(out)@.len() == old(out)@.len() + (to - from) + (if to > from { 1int } else { 0int }),
{
    let ghost start = out@.len();
    let mut s = from;
    while s < to
        invariant
            from <= s <= to <= data.len(),
            lzf_decode(out@) == Some(data@.subrange(0, s as int)),
            to - from <= 32 ==> (s == from && out@.len() == start) || (s == to && to > from && out@.len() == start + (to - from) + 1),
        decreases to - s,
    {
        let n: usize = if to - s < 32 { to - s } else { 32 };
        let ghost o0 = out@;
        let mut tok: Vec<u8> = Vec::new();
        tok.push((n - 1) as u8);
        let mut k: usize = s;
        while k < s + n
            invariant
                s <= k <= s + n <= data.len(),
                1 <= n <= 32,
                tok@.len() == 1 + (k - s),
                tok@[0] == (n - 1) as u8,
                tok@.subrange(1, tok@.len() as int) == data@.subrange(s as int, k as int),
            decreases s + n - k,
        {
            tok.push(data[k]);
            proof {
                assert(tok@.subrange(1, tok@.len() as int) =~= data@.subrange(s as int, k + 1));
            }
            k = k + 1;
        }
        proof {
            let t = tok@;
            reveal_with_fuel(lzf_decode_from, 2);
            assert(t.skip(1 + n as int) =~= Seq::<u8>::empty());
            assert(t.subrange(1, 1 + n as int) =~= data@.subrange(s as int, (s + n) as int));
            assert(lzf_decode_from(t, data@.subrange(0, s as int)) == Some(
                data@.subrange(0, s as int) + data@.subrange(s as int, (s + n) as int),
            ));
            assert(data@.subrange(0, s as int) + data@.subrange(s as int, (s + n) as int)
                =~= data@.subrange(0, (s + n) as int));
            lemma_decode_concat(o0, t, Seq::empty());
        }
        let mut j: usize = 0;
        let ghost t = tok@;
        while j < tok.len()
            invariant
                tok@ == t,
                j <= t.len(),
                out@ == o0 + t.subrange(0, j as int),
            decreases t.len() - j,
        {
            out.push(tok[j]);
            proof {
                assert(t.subrange(0, j + 1) =~= t.subrange(0, j as int).push(t[j as int]));
            }
            j = j + 1;
        }
        proof {
            assert(t.subrange(0, t.len() as int) =~= t);
            assert(out@.len() == o0.len() + 1 + n);
        }
        s = s + n;
    }
}

/// Whether every byte of `d` equals the first.
pub open spec fn all_same(d: Seq<u8>) -> bool {
    forall|k: int| 0 <= k < d.len() ==> #[trigger] d[k] == d[0]
}

proof fn lemma_hash3_bound(a: u8, b: u8, c: u8)
    ensures
        hash3_spec(a, b, c) < 8192,
{
    let v: u32 = ((a as u32) << 16u32) | ((b as u32) << 8u32) | (c as u32);
    let prod: u32 = ((v as nat * 0x9E37_79B1nat) % 0x1_0000_0000nat) as u32;
    assert(prod >> 19u32 < 8192) by (bit_vector);
}

/// The matcher's table slot for three bytes: the big-endian 24-bit value times the golden-ratio
/// constant (mod 2^32), top 13 bits.
spec fn hash3_spec(a: u8, b: u8, c: u8) -> usize {
    let v: u32 = ((a as u32) << 16u32) | ((b as u32) << 8u32) | (c as u32);
    let prod: u32 = ((v as nat * 0x9E37_79B1nat) % 0x1_0000_0000nat) as u32;
    (prod >> 19u32) as usize
}

/// Hash of the three bytes at `i`, into the matcher's 13-bit table.
fn hash3(data: &[u8], i: usize) -> (h: usize)
    requires
        i + 2 < data.len(),
    ensures
        h == hash3_spec(data@[i as int], data@[i + 1], data@[i + 2]),
        h < 8192,
{
    let v: u32 = ((data[i] as u32) << 16) | ((data[i + 1] as u32) << 8) | data[i + 2] as u32;
    let m: u32 = v.wrapping_mul(0x9E37_79B1) >> 19;
    let h: u32 = m & 8191;
    assert(m & 8191 == m && m < 8192) by (bit_vector)
        requires
            m == v.wrapping_mul(0x9E37_79B1) >> 19,
    ;
    h as usize
}

/// Compress with liblzf's format (greedy hash-table matcher). Any valid LZF stream decodes
/// identically; what is promised is that the output decodes back to exactly `data`, and that a
/// run of one repeated byte (1000 bytes or more) comes out at under a quarter of its size: each
/// step after the first copies up to 264 bytes with one 3-byte back-reference.
#[verifier::rlimit(100)]
pub fn lzf_compress(data: &[u8]) -> (out: Vec<u8>)
    ensures
        lzf_decode(out@) == Some(data@),
        all_same(data@) && data@.len() >= 1000 ==> out@.len() < data@.len() / 4,
{
    let mut out: Vec<u8> = Vec::new();
    let mut table: Vec<usize> = Vec::new();
    let mut t: usize = 0;
    while t < 8192
        invariant
            t <= 8192,
            table@.len() == t,
            forall|j: int| 0 <= j < t ==> #[trigger] table@[j] == usize::MAX,
        decreases 8192 - t,
    {
        table.push(usize::MAX);
        t = t + 1;
    }
    let mut ip: usize = 0;
    let mut lit_start: usize = 0;
    assert(data@.subrange(0, 0) =~= Seq::<u8>::empty());
    let ghost n = data@.len() as int;
    let ghost same = all_same(data@) && data@.len() >= 3;
    let ghost hc: int = if data@.len() > 0 { hash3_spec(data@[0], data@[0], data@[0]) as int } else { 0 };
    proof {
        if data@.len() > 0 {
            lemma_hash3_bound(data@[0], data@[0], data@[0]);
        }
    }
    while data.len() > 2 && ip < data.len() - 2
        invariant
            lit_start <= ip <= data.len(),
            n == data@.len(),
            table@.len() == 8192,
            lzf_decode(out@) == Some(data@.subrange(0, lit_start as int)),
            same == (all_same(data@) && data@.len() >= 3),
            0 <= hc < 8192,
            data@.len() > 0 ==> hc == hash3_spec(data@[0], data@[0], data@[0]),
            same ==> {
                ||| (ip == 0 && lit_start == 0 && out@.len() == 0 && table@[hc] == usize::MAX)
                ||| (ip == 1 && lit_start == 0 && out@.len() == 0 && table@[hc] == 0)
                ||| (ip >= 2 && lit_start == ip && table@[hc] < ip && ip - table@[hc] <= 264 && 264 * out@.len() <= 1320
                    + 3 * (ip - 1) + (if ip + 2 >= n { 792int } else { 0int }))
            },
        decreases data.len() - ip,
    {
        let h = hash3(data, ip);
        proof {
            if same {
                assert(data@[ip as int] == data@[0] && data@[ip + 1] == data@[0] && data@[ip + 2] == data@[0]);
                assert(h == hc);
            }
        }
        let rp = table[h];
        table.set(h, ip);
        if rp != usize::MAX && rp < ip && ip - rp <= 8192 && data[rp] == data[ip] && data[rp + 1]
            == data[ip + 1] && data[rp + 2] == data[ip + 2] {
            let max: usize = if data.len() - ip < 264 { data.len() - ip } else { 264 };
            let mut len: usize = 3;
            while len < max && data[rp + len] == data[ip + len]
                invariant
                    3 <= len <= max,
                    max <= data.len() - ip,
                    max <= 264,
                    rp < ip,
                    forall|k: int| ip <= k < ip + len ==> #[trigger] data@[k] == data@[k - (ip - rp)],
                decreases max - len,
            {
                len = len + 1;
            }
            proof {
                if same && len < max {
                    assert(data@[rp + len] == data@[0] && data@[ip + len] == data@[0]);
                }
            }
            let ghost out_before = out@.len();
            flush_lit(&mut out, data, lit_start, ip);
            let off: usize = ip - rp - 1;
            let lc: usize = len - 2;
            let hi: u8 = (off >> 8) as u8;
            let lo: u8 = (off & 0xff) as u8;
            proof {
                assert(off < 8192);
                assert((off >> 8) < 32) by (bit_vector)
                    requires
                        off < 8192,
                ;
                assert((off & 0xff) == off % 256) by (bit_vector);
                assert((off >> 8) == off / 256) by (bit_vector);
            }
            let ghost o0 = out@;
            let mut tok: Vec<u8> = Vec::new();
            if lc < 7 {
                let lcb: u8 = lc as u8;
                let ctrl: u8 = (lcb << 5) | hi;
                proof {
                    assert(((lcb << 5) | hi) / 32 == lcb && ((lcb << 5) | hi) % 32 == hi) by (bit_vector)
                        requires
                            1 <= lcb < 7,
                            hi < 32,
                    ;
                }
                tok.push(ctrl);
            } else {
                let ctrl: u8 = (7u8 << 5) | hi;
                proof {
                    assert(((7u8 << 5) | hi) / 32 == 7 && ((7u8 << 5) | hi) % 32 == hi) by (bit_vector)
                        requires
                            hi < 32,
                    ;
                }
                tok.push(ctrl);
                tok.push((lc - 7) as u8);
            }
            tok.push(lo);
            proof {
                let tt = tok@;
                reveal_with_fuel(lzf_decode_from, 2);
                let ext: int = if lc < 7 { 0 } else { 1 };
                assert(tt[1 + ext] == lo);
                assert((tt[0] % 32) as int * 256 + tt[1 + ext] == off);
                assert(tt[0] >= 32);
                if lc < 7 {
                    assert(tt[0] / 32 == lc);
                } else {
                    assert(tt[0] / 32 == 7);
                    assert(7 + tt[1] == lc);
                }
                assert(tt.len() == 2 + ext);
                assert(tt.skip(2 + ext) =~= Seq::<u8>::empty());
                let pre = data@.subrange(0, ip as int);
                lemma_copy_back_match(data@, ip as int, rp as int, len as nat);
                assert(pre.len() - (off + 1) == rp);
                assert(lzf_decode_from(tt, pre) == Some(data@.subrange(0, ip + len)));
                lemma_decode_concat(o0, tt, Seq::empty());
            }
            let mut j: usize = 0;
            let ghost tt = tok@;
            while j < tok.len()
                invariant
                    tok@ == tt,
                    j <= tt.len(),
                    out@ == o0 + tt.subrange(0, j as int),
                decreases tt.len() - j,
            {
                out.push(tok[j]);
                proof {
                    assert(tt.subrange(0, j + 1) =~= tt.subrange(0, j as int).push(tt[j as int]));
                }
                j = j + 1;
            }
            proof {
                assert(tt.subrange(0, tt.len() as int) =~= tt);
                assert(out@.len() == o0.len() + tt.len());
                assert(tt.len() <= 3);
                if same {
                    assert(len == max);
                }
            }
            ip = ip + len;
            lit_start = ip;
        } else {
            proof {
                if same {
                    assert(ip == 0);
                }
            }
            ip = ip + 1;
        }
    }
    let ghost out_loop = out@.len();
    proof {
        if same && n >= 1000 {
            assert(ip >= 2 && lit_start == ip);
            assert(n - lit_start <= 2);
        }
    }
    flush_lit(&mut out, data, lit_start, data.len());
    proof {
        assert(data@.subrange(0, data@.len() as int) =~= data@);
        if all_same(data@) && n >= 1000 {
            assert(out@.len() <= out_loop + 3);
            assert(264 * out_loop <= 2112 + 3 * n);
        }
    }
    out
}

} // verus!
