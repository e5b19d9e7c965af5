//! The text-level pieces of folding a set-aside document's layers into the working one: merge
//! refusals, attribute tokens, XML escaping, fresh layer names and ids, and renaming a layer in
//! its opening tag.

use crate::chains::first_at;
use crate::commit::{dec_string, text_set};
use crate::error::KvcError;
use crate::repo::{blake3_digest, hash_bytes};
use crate::restore::views;
use crate::text::{ascii_chars, ascii_of, ascii_text, chars_of, dec_nat, digit_byte, hex_ascii, parse_unsigned, string_of_chars};
use vstd::prelude::*;

verus! {

/// A merge refusal carrying `msg`.
pub fn fail(msg: &str) -> (e: KvcError)
    ensures
        e matches KvcError::MergeFailed(m) && m@ == msg@,
{
    KvcError::MergeFailed(msg.to_owned())
}

/// `s`, or `?` when it is empty (for naming an absent attribute in a message).
pub fn or_q(s: &str) -> (r: &str)
    ensures
        r@ == if s@.len() == 0 {
            "?"@
        } else {
            s@
        },
{
    proof {
        reveal_strlit("?");
    }
    if s.is_empty() {
        "?"
    } else {
        s
    }
}

/// A merge goes ahead only between documents of one colour space: `Ok` when the two
/// `colorspacename` values are equal, else the refusal that names both (`?` for an absent one).
pub fn same_colour_space(base_cs: &str, inc_cs: &str) -> (r: Result<(), KvcError>)
    ensures
        r is Ok <==> base_cs@ == inc_cs@,
        r matches Err(e) ==> e matches KvcError::MergeFailed(m) && m@ == "different color space ("@
            + (if base_cs@.len() == 0 { "?"@ } else { base_cs@ }) + " vs "@
            + (if inc_cs@.len() == 0 { "?"@ } else { inc_cs@ })
            + ") \u{2014} bring the set-aside work back onto a clean file"@,
{
    if crate::text::str_eq(base_cs, inc_cs) {
        return Ok(());
    }
    let mut msg = "different color space (".to_owned();
    msg.append(or_q(base_cs));
    msg.append(" vs ");
    msg.append(or_q(inc_cs));
    msg.append(") \u{2014} bring the set-aside work back onto a clean file");
    Err(fail(msg.as_str()))
}

/// The byte contents of a layer's parts.
pub open spec fn parts_view(p: Seq<Vec<u8>>) -> Seq<Seq<u8>> {
    p.map_values(|v: Vec<u8>| v@)
}

/// Whether a layer's parts are byte for byte those of its ancestor: the second half of telling
/// an unchanged layer (the first is an equal signature, `layer_sig`).
pub fn same_parts(a: &Vec<Vec<u8>>, b: &Vec<Vec<u8>>) -> (r: bool)
    ensures
        r == (parts_view(a@) == parts_view(b@)),
{
    if a.len() != b.len() {
        proof {
            assert(parts_view(a@).len() != parts_view(b@).len());
        }
        return false;
    }
    let mut i: usize = 0;
    while i < a.len()
        invariant
            a.len() == b.len(),
            i <= a.len(),
            forall|k: int| 0 <= k < i ==> a@[k]@ == b@[k]@,
        decreases a.len() - i,
    {
        let x = a[i].as_slice();
        let y = b[i].as_slice();
        if x.len() != y.len() {
            proof {
                assert(parts_view(a@)[i as int] != parts_view(b@)[i as int]);
            }
            return false;
        }
        let mut j: usize = 0;
        while j < x.len()
            invariant
                i < a.len(),
                a.len() == b.len(),
                x@ == a@[i as int]@,
                y@ == b@[i as int]@,
                x.len() == y.len(),
                j <= x.len(),
                forall|k: int| 0 <= k < j ==> x@[k] == y@[k],
            decreases x.len() - j,
        {
            if x[j] != y[j] {
                proof {
                    assert(parts_view(a@)[i as int][j as int] != parts_view(b@)[i as int][j as int]);
                }
                return false;
            }
            j = j + 1;
        }
        proof {
            assert(x@ =~= y@);
        }
        i = i + 1;
    }
    proof {
        assert(parts_view(a@) =~= parts_view(b@));
    }
    true
}

/// The attribute token `key="value"`.
pub fn attr(key: &str, value: &str) -> (r: String)
    ensures
        r@ == key@ + "=\""@ + value@ + "\""@,
{
    let mut out = key.to_owned();
    out.append("=\"");
    out.append(value);
    out.append("\"");
    out
}

/// How one character is written inside an XML attribute value.
pub open spec fn escape_char(c: char) -> Seq<char> {
    if c == '&' {
        "&amp;"@
    } else if c == '<' {
        "&lt;"@
    } else if c == '>' {
        "&gt;"@
    } else if c == '"' {
        "&quot;"@
    } else {
        seq![c]
    }
}

/// `s` with `&`, `<`, `>` and `"` written as entities.
pub open spec fn escape_spec(s: Seq<char>) -> Seq<char>
    decreases s.len(),
{
    if s.len() == 0 {
        Seq::empty()
    } else {
        escape_spec(s.drop_last()) + escape_char(s.last())
    }
}

fn push_text(out: &mut Vec<char>, t: &str)
    ensures
        final(out)@ == old(out)@ + t@,
{
    let cs = chars_of(t);
    let mut i: usize = 0;
    let ghost start = out@;
    while i < cs.len()
        invariant
            i <= cs@.len(),
            cs@ == t@,
            out@ == start + cs@.take(i as int),
        decreases cs@.len() - i,
    {
        out.push(cs[i]);
        proof {
            assert(cs@.take(i + 1) =~= cs@.take(i as int).push(cs@[i as int]));
        }
        i = i + 1;
    }
    proof {
        assert(cs@.take(cs@.len() as int) =~= cs@);
    }
}

/// `s` escaped for an XML attribute value.
pub fn xml_escape(s: &str) -> (r: String)
    ensures
        r@ == escape_spec(s@),
{
    let cs = chars_of(s);
    let mut out: Vec<char> = Vec::new();
    let mut i: usize = 0;
    while i < cs.len()
        invariant
            i <= cs@.len(),
            cs@ == s@,
            out@ == escape_spec(cs@.take(i as int)),
        decreases cs@.len() - i,
    {
        proof {
            assert(cs@.take(i + 1).drop_last() =~= cs@.take(i as int));
            reveal_strlit("&amp;");
            reveal_strlit("&lt;");
            reveal_strlit("&gt;");
            reveal_strlit("&quot;");
        }
        let c = cs[i];
        if c == '&' {
            push_text(&mut out, "&amp;");
        } else if c == '<' {
            push_text(&mut out, "&lt;");
        } else if c == '>' {
            push_text(&mut out, "&gt;");
        } else if c == '"' {
            push_text(&mut out, "&quot;");
        } else {
            out.push(c);
        }
        i = i + 1;
    }
    proof {
        assert(cs@.take(cs@.len() as int) =~= cs@);
    }
    string_of_chars(out.as_slice())
}

fn find_char_from(s: &Vec<char>, c: char, from: usize) -> (r: Option<usize>)
    requires
        from <= s@.len(),
    ensures
        match r {
            Some(p) => first_at(s@, seq![c], from as int) == Some(p as int),
            None => first_at(s@, seq![c], from as int) is None,
        },
{
    let mut i: usize = from;
    while i < s.len()
        invariant
            from <= i <= s@.len(),
            first_at(s@, seq![c], from as int) == first_at(s@, seq![c], i as int),
        decreases s@.len() - i,
    {
        proof {
            assert(s@.subrange(i as int, i + 1) =~= seq![s@[i as int]]);
        }
        if s[i] == c {
            return Some(i);
        }
        proof {
            assert(seq![s@[i as int]][0] != seq![c][0]);
        }
        i = i + 1;
    }
    None
}

/// The opening tag `t` with the value of its first ` name="…"` attribute replaced by `v`:
/// `None` when there is no such attribute or its value is not closed.
pub open spec fn renamed(t: Seq<char>, v: Seq<char>) -> Option<Seq<char>> {
    match first_at(t, " name=\""@, 0) {
        None => None,
        Some(a) => match first_at(t, seq!['"'], a + 7) {
            None => None,
            Some(b) => Some(t.take(a + 7) + v + t.skip(b)),
        },
    }
}

/// Replace the value of the first ` name="…"` attribute in an opening tag with `escaped_new`.
/// The leading space anchors it to a whole attribute (never the tail of `filename="…"`), and a
/// literal `"` inside a value is always written `&quot;`, so the closing quote is the first one.
pub fn set_open_name(open_tag: &str, escaped_new: &str) -> (r: Option<String>)
    ensures
        match r {
            Some(s) => renamed(open_tag@, escaped_new@) == Some(s@),
            None => renamed(open_tag@, escaped_new@) is None,
        },
{
    proof {
        reveal_strlit(" name=\"");
        assert(" name=\""@.len() == 7);
    }
    let t = chars_of(open_tag);
    let key = chars_of(" name=\"");
    let a = match crate::chains::find_from(&t, &key) {
        Some(a) => a,
        None => return None,
    };
    proof {
        lemma_first_at_bounds(t@, key@, 0);
        assert(key@.len() == 7);
        assert(a + 7 <= t@.len());
    }
    let tl = t.len();
    assert(a + 7 <= tl);
    let vstart = a + 7;
    let b = match find_char_from(&t, '"', vstart) {
        Some(b) => b,
        None => return None,
    };
    proof {
        assert(first_at(t@, seq!['"'], vstart as int) == Some(b as int));
        assert(vstart <= b < t@.len()) by {
            lemma_first_at_bounds(t@, seq!['"'], vstart as int);
        }
    }
    let mut out: Vec<char> = Vec::new();
    let mut i: usize = 0;
    while i < vstart
        invariant
            vstart <= t@.len(),
            i <= vstart,
            out@ == t@.take(i as int),
        decreases vstart - i,
    {
        out.push(t[i]);
        proof {
            assert(t@.take(i + 1) =~= t@.take(i as int).push(t@[i as int]));
        }
        i = i + 1;
    }
    push_text(&mut out, escaped_new);
    let ghost mid = out@;
    let mut j: usize = b;
    while j < t.len()
        invariant
            b <= j <= t@.len(),
            out@ == mid + t@.subrange(b as int, j as int),
        decreases t@.len() - j,
    {
        out.push(t[j]);
        proof {
            assert(t@.subrange(b as int, j + 1) =~= t@.subrange(b as int, j as int).push(t@[j as int]));
        }
        j = j + 1;
    }
    proof {
        assert(t@.subrange(b as int, t@.len() as int) =~= t@.skip(b as int));
    }
    Some(string_of_chars(out.as_slice()))
}

proof fn lemma_first_at_bounds(s: Seq<char>, m: Seq<char>, from: int)
    ensures
        first_at(s, m, from) matches Some(p) ==> from <= p && p + m.len() <= s.len() && s.subrange(p, p + m.len()) == m,
    decreases s.len() + 1 - from,
{
    if !(from < 0 || from + m.len() > s.len()) && s.subrange(from, from + m.len()) != m {
        lemma_first_at_bounds(s, m, from + 1);
    }
}

/// The `n`-th fresh name for a layer called `name`: `name [n]`.
pub open spec fn suffixed(name: Seq<char>, n: nat) -> Seq<char> {
    name + " ["@ + ascii_chars(dec_nat(n)) + "]"@
}

proof fn lemma_suffixed_injective(name: Seq<char>, a: nat, b: nat)
    requires
        suffixed(name, a) == suffixed(name, b),
    ensures
        a == b,
{
    reveal_strlit(" [");
    reveal_strlit("]");
    let da = ascii_chars(dec_nat(a));
    let db = ascii_chars(dec_nat(b));
    let pre = name + " ["@;
    assert(suffixed(name, a) == pre + da + "]"@);
    assert(suffixed(name, b) == pre + db + "]"@);
    assert(da.len() == db.len());
    assert(da =~= suffixed(name, a).subrange(pre.len() as int, (pre.len() + da.len()) as int));
    assert(db =~= suffixed(name, b).subrange(pre.len() as int, (pre.len() + db.len()) as int));
    crate::text::lemma_dec_nat_digits(a);
    crate::text::lemma_dec_nat_digits(b);
    assert(dec_nat(a) =~= dec_nat(b)) by {
        assert forall|i: int| 0 <= i < dec_nat(a).len() implies dec_nat(a)[i] == dec_nat(b)[i] by {
            assert(da[i] == dec_nat(a)[i] as char);
            assert(db[i] == dec_nat(b)[i] as char);
        }
    }
    crate::text::lemma_parse_dec_nat(a, a + b);
    crate::text::lemma_parse_dec_nat(b, a + b);
}

/// `name [2]`, `name [3]`, … : the first of these that `taken` does not hold.
pub fn unique_name(name: &str, taken: &Vec<String>) -> (r: String)
    requires
        taken@.len() < u64::MAX - 2,
    ensures
        exists|n: nat|
            n >= 2 && r@ == suffixed(name@, n) && !text_set(taken@).contains(suffixed(name@, n)) && forall|m: nat|
                2 <= m < n ==> text_set(taken@).contains(#[trigger] suffixed(name@, m)),
{
    proof {
        reveal_strlit(" [");
        reveal_strlit("]");
    }
    let mut n: u64 = 2;
    loop
        invariant
            2 <= n <= taken@.len() + 2,
            taken@.len() < u64::MAX - 2,
            forall|m: nat| 2 <= m < n ==> text_set(taken@).contains(#[trigger] suffixed(name@, m)),
        decreases taken@.len() + 2 - n,
    {
        let mut cand = name.to_owned();
        cand.append(" [");
        let d = dec_string(n);
        cand.append(d.as_str());
        cand.append("]");
        assert(cand@ == suffixed(name@, n as nat));
        if !crate::commit::contains_text(taken, cand.as_str()) {
            return cand;
        }
        proof {
            assert(text_set(taken@).contains(suffixed(name@, n as nat)));
            lemma_candidates_fit(name@, taken@, (n + 1) as nat);
        }
        n = n + 1;
    }
}

proof fn lemma_candidates_fit(name: Seq<char>, taken: Seq<String>, n: nat)
    requires
        n >= 2,
        forall|m: nat| 2 <= m < n ==> text_set(taken).contains(#[trigger] suffixed(name, m)),
    ensures
        n <= taken.len() + 2,
{
    let cands = Set::new(|t: Seq<char>| exists|m: nat| 2 <= m < n && t == suffixed(name, m));
    let held = taken.map_values(|s: String| s@).to_set();
    assert(cands.subset_of(held)) by {
        assert forall|t: Seq<char>| cands.contains(t) implies held.contains(t) by {
            let m = choose|m: nat| 2 <= m < n && t == suffixed(name, m);
            assert(text_set(taken).contains(suffixed(name, m)));
            let i = choose|i: int| 0 <= i < taken.len() && (#[trigger] taken[i])@ == suffixed(name, m);
            assert(taken.map_values(|s: String| s@)[i] == t);
        }
    }
    taken.map_values(|s: String| s@).lemma_cardinality_of_set();
    lemma_candidate_count(name, n);
    vstd::set_lib::lemma_len_subset(cands, held);
}

proof fn lemma_candidate_count(name: Seq<char>, n: nat)
    requires
        n >= 2,
    ensures
        Set::new(|t: Seq<char>| exists|m: nat| 2 <= m < n && t == suffixed(name, m)).finite(),
        Set::new(|t: Seq<char>| exists|m: nat| 2 <= m < n && t == suffixed(name, m)).len() == n - 2,
    decreases n,
{
    let s = Set::new(|t: Seq<char>| exists|m: nat| 2 <= m < n && t == suffixed(name, m));
    if n == 2 {
        assert(s =~= Set::empty());
    } else {
        let p = Set::new(|t: Seq<char>| exists|m: nat| 2 <= m < (n - 1) as nat && t == suffixed(name, m));
        lemma_candidate_count(name, (n - 1) as nat);
        let x = suffixed(name, (n - 1) as nat);
        assert(s =~= p.insert(x)) by {
            assert forall|t: Seq<char>| s.contains(t) implies p.insert(x).contains(t) by {
                let m = choose|m: nat| 2 <= m < n && t == suffixed(name, m);
                if m < n - 1 {
                    assert(p.contains(t));
                }
            }
            assert forall|t: Seq<char>| p.insert(x).contains(t) implies s.contains(t) by {
                if t != x {
                    let m = choose|m: nat| 2 <= m < (n - 1) as nat && t == suffixed(name, m);
                    assert(s.contains(t));
                }
            }
        }
        assert(!p.contains(x)) by {
            if p.contains(x) {
                let m = choose|m: nat| 2 <= m < (n - 1) as nat && x == suffixed(name, m);
                lemma_suffixed_injective(name, m, (n - 1) as nat);
            }
        }
    }
}

/// The text a fresh layer id is hashed from.
pub open spec fn uuid_seed(seed: Seq<char>, ctr: u64) -> Seq<char> {
    "kvc-merge\0"@ + seed + "\0"@ + ascii_chars(dec_nat(ctr as nat))
}

/// A uuid-shaped `{8-4-4-4-12}` id: the first 32 hex digits of the BLAKE3 hash of the seed and
/// counter, grouped.
pub open spec fn uuid_spec(seed: Seq<char>, ctr: u64) -> Seq<char> {
    let h = ascii_chars(hex_ascii(blake3_digest(vstd::utf8::encode_utf8(uuid_seed(seed, ctr)))));
    "{"@ + h.subrange(0, 8) + "-"@ + h.subrange(8, 12) + "-"@ + h.subrange(12, 16) + "-"@ + h.subrange(16, 20) + "-"@
        + h.subrange(20, 32) + "}"@
}

fn push_range(out: &mut Vec<char>, s: &Vec<char>, from: usize, to: usize)
    requires
        from <= to <= s@.len(),
    ensures
        final(out)@ == old(out)@ + s@.subrange(from as int, to as int),
{
    let ghost start = out@;
    let mut i: usize = from;
    while i < to
        invariant
            from <= i <= to <= s@.len(),
            out@ == start + s@.subrange(from as int, i as int),
        decreases to - i,
    {
        out.push(s[i]);
        proof {
            assert(s@.subrange(from as int, i + 1) =~= s@.subrange(from as int, i as int).push(s@[i as int]));
        }
        i = i + 1;
    }
}

/// A fresh layer id derived from `seed` and `ctr` (checked against the ids already taken by
/// the caller).
pub fn fresh_uuid(seed: &str, ctr: u64) -> (r: String)
    ensures
        r@ == uuid_spec(seed@, ctr),
{
    let mut text = String::from_str("kvc-merge\0");
    text.append(seed);
    text.append("\0");
    let d = dec_string(ctr);
    text.append(d.as_str());
    proof {
        reveal_strlit("kvc-merge\0");
        reveal_strlit("\0");
    }
    assert(text@ == uuid_seed(seed@, ctr));
    let hex = chars_of(hash_bytes(text.as_str().as_bytes()).as_str());
    let mut out: Vec<char> = Vec::new();
    out.push('{');
    push_range(&mut out, &hex, 0, 8);
    out.push('-');
    push_range(&mut out, &hex, 8, 12);
    out.push('-');
    push_range(&mut out, &hex, 12, 16);
    out.push('-');
    push_range(&mut out, &hex, 16, 20);
    out.push('-');
    push_range(&mut out, &hex, 20, 32);
    out.push('}');
    proof {
        reveal_strlit("{");
        reveal_strlit("-");
        reveal_strlit("}");
        assert(out@ =~= uuid_spec(seed@, ctr));
    }
    string_of_chars(out.as_slice())
}

/// `s` with every occurrence of `p` replaced by `t`, scanning left to right and never
/// overlapping (the semantics of `str::replace` for a non-empty pattern).
pub open spec fn replace_spec(s: Seq<char>, p: Seq<char>, t: Seq<char>) -> Seq<char>
    decreases s.len(),
{
    if p.len() == 0 || s.len() < p.len() {
        s
    } else if s.take(p.len() as int) == p {
        t + replace_spec(s.skip(p.len() as int), p, t)
    } else {
        seq![s[0]] + replace_spec(s.skip(1), p, t)
    }
}

fn matches_at(s: &Vec<char>, p: &Vec<char>, i: usize) -> (r: bool)
    requires
        i + p@.len() <= s@.len(),
    ensures
        r == (s@.skip(i as int).take(p@.len() as int) == p@),
{
    let mut k: usize = 0;
    let sl = s.len();
    while k < p.len()
        invariant
            k <= p@.len(),
            sl == s@.len(),
            i + p@.len() <= sl,
            forall|z: int| 0 <= z < k ==> s@[i + z] == p@[z],
        decreases p@.len() - k,
    {
        if s[i + k] != p[k] {
            proof {
                assert(s@.skip(i as int).take(p@.len() as int)[k as int] != p@[k as int]);
            }
            return false;
        }
        k = k + 1;
    }
    proof {
        assert(s@.skip(i as int).take(p@.len() as int) =~= p@);
    }
    true
}

/// `s` with every occurrence of the non-empty `p` replaced by `t`.
pub fn replace_all(s: &str, p: &str, t: &str) -> (r: String)
    requires
        p@.len() > 0,
    ensures
        r@ == replace_spec(s@, p@, t@),
{
    let sc = chars_of(s);
    let pc = chars_of(p);
    let mut out: Vec<char> = Vec::new();
    let mut i: usize = 0;
    assert(sc@.skip(0) =~= sc@);
    while i < sc.len()
        invariant
            i <= sc@.len(),
            sc@ == s@,
            pc@ == p@,
            pc@.len() > 0,
            out@ + replace_spec(sc@.skip(i as int), pc@, t@) == replace_spec(sc@, pc@, t@),
        decreases sc@.len() - i,
    {
        let ghost rest = sc@.skip(i as int);
        if pc.len() <= sc.len() - i && matches_at(&sc, &pc, i) {
            let ghost before = out@;
            push_text(&mut out, t);
            proof {
                assert(rest.skip(pc@.len() as int) =~= sc@.skip(i + pc@.len()));
                assert(out@ + replace_spec(sc@.skip(i + pc@.len()), pc@, t@) =~= before + replace_spec(rest, pc@, t@));
            }
            i = i + pc.len();
        } else {
            let ghost before = out@;
            out.push(sc[i]);
            proof {
                assert(rest.skip(1) =~= sc@.skip(i + 1));
                if rest.len() >= pc@.len() {
                    assert(rest.take(pc@.len() as int) != pc@);
                }
                assert(rest[0] == sc@[i as int]);
                assert(out@ + replace_spec(sc@.skip(i + 1), pc@, t@) =~= before + replace_spec(rest, pc@, t@));
            }
            i = i + 1;
        }
    }
    proof {
        assert(sc@.skip(i as int) =~= Seq::<char>::empty());
        assert(out@ =~= replace_spec(sc@, pc@, t@));
    }
    string_of_chars(out.as_slice())
}

/// The layer data file name `layer<n>`.
pub open spec fn layer_file(n: nat) -> Seq<char> {
    "layer"@ + ascii_chars(dec_nat(n))
}

/// The number of a layer data file name `layer<N>` (Rust's `u64` parse of what follows
/// `layer`), if it has one.
pub open spec fn layer_number(f: Seq<char>) -> Option<nat> {
    if f.len() >= 5 && f.take(5) == "layer"@ && ascii_text(f.skip(5)) {
        parse_unsigned(ascii_of(f.skip(5)), 0xffff_ffff_ffff_ffff)
    } else {
        None
    }
}

/// The greatest layer number among `files`, 0 when none has one.
pub open spec fn max_layer_number(files: Seq<Seq<char>>) -> nat
    decreases files.len(),
{
    if files.len() == 0 {
        0
    } else {
        let m = max_layer_number(files.drop_last());
        match layer_number(files.last()) {
            Some(n) => if n > m { n } else { m },
            None => m,
        }
    }
}

fn push_dec_u128(out: &mut Vec<u8>, n: u128)
    ensures
        final(out)@ == old(out)@ + dec_nat(n as nat),
    decreases n,
{
    if n >= 10 {
        push_dec_u128(out, n / 10);
    }
    let d: u8 = (n % 10) as u8;
    out.push(48u8 + d);
    proof {
        if n >= 10 {
            assert(old(out)@ + dec_nat(n as nat) =~= old(out)@ + dec_nat((n / 10) as nat) + seq![digit_byte((n % 10) as int)]);
        } else {
            assert(old(out)@ + dec_nat(n as nat) =~= old(out)@.push(digit_byte(n as int)));
        }
    }
}

fn layer_file_exec(n: u128) -> (r: String)
    ensures
        r@ == layer_file(n as nat),
{
    let mut digits: Vec<u8> = Vec::new();
    push_dec_u128(&mut digits, n);
    proof {
        crate::text::lemma_dec_nat_digits(n as nat);
        assert(digits@ =~= dec_nat(n as nat));
        assert forall|i: int| 0 <= i < digits@.len() implies #[trigger] digits@[i] < 128 by {}
        reveal_strlit("layer");
    }
    let d = crate::text::ascii_string(digits.as_slice());
    let mut r = String::from_str("layer");
    r.append(d.as_str());
    r
}

fn layer_number_exec(f: &str) -> (r: Option<u64>)
    ensures
        match r {
            Some(n) => layer_number(f@) == Some(n as nat),
            None => layer_number(f@) is None,
        },
{
    proof {
        reveal_strlit("layer");
    }
    let c = chars_of(f);
    let pre = chars_of("layer");
    assert(pre@.len() == 5);
    if c.len() < 5 {
        return None;
    }
    let mut k: usize = 0;
    while k < 5
        invariant
            k <= 5,
            5 <= c@.len(),
            pre@ == "layer"@,
            pre@.len() == 5,
            c@ == f@,
            forall|z: int| 0 <= z < k ==> c@[z] == pre@[z],
        decreases 5 - k,
    {
        if c[k] != pre[k] {
            proof {
                assert(c@.take(5)[k as int] != "layer"@[k as int]);
                assert(c@.take(5) != "layer"@);
            }
            return None;
        }
        k = k + 1;
    }
    proof {
        assert(c@.take(5) =~= "layer"@);
    }
    let mut rest: Vec<char> = Vec::new();
    let mut i: usize = 5;
    while i < c.len()
        invariant
            5 <= i <= c@.len(),
            rest@ == c@.subrange(5, i as int),
        decreases c@.len() - i,
    {
        rest.push(c[i]);
        proof {
            assert(rest@ =~= c@.subrange(5, i + 1));
        }
        i = i + 1;
    }
    proof {
        assert(rest@ =~= c@.skip(5));
    }
    match crate::text::ascii_bytes_of(rest.as_slice()) {
        None => None,
        Some(b) => {
            proof {
                assert(b@.subrange(0, b@.len() as int) =~= b@);
            }
            crate::text::parse_unsigned_at(b.as_slice(), 0, b.len(), 0xffff_ffff_ffff_ffff)
        },
    }
}

/// The greatest layer number among `files`, 0 when none has one.
fn max_number(files: &Vec<String>) -> (r: u64)
    ensures
        r as nat == max_layer_number(views(files@)),
{
    let mut m: u64 = 0;
    let mut i: usize = 0;
    while i < files.len()
        invariant
            i <= files@.len(),
            m as nat == max_layer_number(views(files@).take(i as int)),
        decreases files@.len() - i,
    {
        proof {
            assert(views(files@).take(i + 1).drop_last() =~= views(files@).take(i as int));
            assert(views(files@).take(i + 1).last() == files@[i as int]@);
        }
        match layer_number_exec(files[i].as_str()) {
            Some(n) => {
                if n > m {
                    m = n;
                }
            },
            None => {},
        }
        i = i + 1;
    }
    proof {
        assert(views(files@).take(files@.len() as int) =~= views(files@));
    }
    m
}

proof fn lemma_layer_file_injective(a: nat, b: nat)
    requires
        layer_file(a) == layer_file(b),
    ensures
        a == b,
{
    reveal_strlit("layer");
    let da = ascii_chars(dec_nat(a));
    let db = ascii_chars(dec_nat(b));
    assert(da =~= layer_file(a).skip(5));
    assert(db =~= layer_file(b).skip(5));
    crate::text::lemma_dec_nat_digits(a);
    crate::text::lemma_dec_nat_digits(b);
    assert(dec_nat(a) =~= dec_nat(b)) by {
        assert forall|i: int| 0 <= i < dec_nat(a).len() implies dec_nat(a)[i] == dec_nat(b)[i] by {
            assert(da[i] == dec_nat(a)[i] as char);
            assert(db[i] == dec_nat(b)[i] as char);
        }
    }
    crate::text::lemma_parse_dec_nat(a, a + b);
    crate::text::lemma_parse_dec_nat(b, a + b);
}

proof fn lemma_files_count(a: nat, b: nat)
    requires
        a <= b,
    ensures
        Set::new(|t: Seq<char>| exists|j: nat| a <= j < b && t == layer_file(j)).finite(),
        Set::new(|t: Seq<char>| exists|j: nat| a <= j < b && t == layer_file(j)).len() == b - a,
    decreases b - a,
{
    let s = Set::new(|t: Seq<char>| exists|j: nat| a <= j < b && t == layer_file(j));
    if a == b {
        assert(s =~= Set::empty());
    } else {
        let c = (b - 1) as nat;
        let p = Set::new(|t: Seq<char>| exists|j: nat| a <= j < c && t == layer_file(j));
        lemma_files_count(a, c);
        let x = layer_file(c);
        assert(s =~= p.insert(x)) by {
            assert forall|t: Seq<char>| s.contains(t) implies p.insert(x).contains(t) by {
                let j = choose|j: nat| a <= j < b && t == layer_file(j);
                if j < c {
                    assert(p.contains(t));
                }
            }
            assert forall|t: Seq<char>| p.insert(x).contains(t) implies s.contains(t) by {
                if t != x {
                    let j = choose|j: nat| a <= j < c && t == layer_file(j);
                    assert(s.contains(t));
                }
            }
        }
        assert(!p.contains(x)) by {
            if p.contains(x) {
                let j = choose|j: nat| a <= j < c && x == layer_file(j);
                lemma_layer_file_injective(j, c);
            }
        }
    }
}

/// When every name `layer<j>` for `j` in `[a, b)` is among `avoid`, there are no more of them
/// than `avoid` has entries.
proof fn lemma_files_fit(avoid: Seq<Seq<char>>, a: nat, b: nat)
    requires
        a <= b,
        forall|j: nat| a <= j < b ==> avoid.contains(#[trigger] layer_file(j)),
    ensures
        b - a <= avoid.len(),
{
    let cands = Set::new(|t: Seq<char>| exists|j: nat| a <= j < b && t == layer_file(j));
    let held = avoid.to_set();
    assert(cands.subset_of(held)) by {
        assert forall|t: Seq<char>| cands.contains(t) implies held.contains(t) by {
            let j = choose|j: nat| a <= j < b && t == layer_file(j);
            assert(avoid.contains(layer_file(j)));
        }
    }
    avoid.lemma_cardinality_of_set();
    lemma_files_count(a, b);
    vstd::set_lib::lemma_len_subset(cands, held);
}

/// The first `k` at or after `next` whose name `layer<k>` `avoid` does not hold.
pub open spec fn first_free_file(next: nat, avoid: Seq<Seq<char>>) -> nat {
    choose|k: nat| k >= next && !avoid.contains(layer_file(k)) && forall|j: nat| next <= j < k ==> avoid.contains(#[trigger] layer_file(j))
}

/// The first free layer data file name at or after number `next`, and the number after it.
fn fresh_file(next: u128, avoid: &Vec<String>, Ghost(floor): Ghost<nat>) -> (r: (String, u128))
    requires
        floor <= next,
        forall|j: nat| floor <= j < next ==> views(avoid@).contains(#[trigger] layer_file(j)),
        floor + avoid@.len() + 2 < u128::MAX,
    ensures
        r.0@ == layer_file(first_free_file(next as nat, views(avoid@))),
        r.1 == first_free_file(next as nat, views(avoid@)) + 1,
        !views(avoid@).contains(r.0@),
        forall|j: nat| floor <= j < r.1 - 1 ==> views(avoid@).contains(#[trigger] layer_file(j)),
        r.1 <= floor + avoid@.len() + 1,
        r.1 > next,
{
    let mut k: u128 = next;
    proof {
        lemma_files_fit(views(avoid@), floor, next as nat);
    }
    loop
        invariant
            floor <= next <= k,
            forall|j: nat| floor <= j < k ==> views(avoid@).contains(#[trigger] layer_file(j)),
            forall|j: nat| next <= j < k ==> views(avoid@).contains(#[trigger] layer_file(j)),
            floor + avoid@.len() + 2 < u128::MAX,
            k <= floor + avoid@.len(),
        decreases floor + avoid@.len() + 1 - k,
    {
        let cand = layer_file_exec(k);
        if !crate::commit::contains_text(avoid, cand.as_str()) {
            proof {
                assert(!views(avoid@).contains(cand@)) by {
                    if views(avoid@).contains(cand@) {
                        let i = choose|i: int| 0 <= i < views(avoid@).len() && views(avoid@)[i] == cand@;
                        assert(avoid@[i]@ == cand@);
                    }
                }
                let w = first_free_file(next as nat, views(avoid@));
                assert(k >= next && !views(avoid@).contains(layer_file(k as nat)) && forall|j: nat| next <= j < k ==> views(avoid@).contains(#[trigger] layer_file(j)));
                assert(w >= next && !views(avoid@).contains(layer_file(w)) && forall|j: nat| next <= j < w ==> views(avoid@).contains(#[trigger] layer_file(j)));
                if w < k {
                    assert(views(avoid@).contains(layer_file(w)));
                } else if w > k {
                    assert(views(avoid@).contains(layer_file(k as nat)));
                }
            }
            return (cand, k + 1);
        }
        proof {
            let i = choose|i: int| 0 <= i < avoid@.len() && (#[trigger] avoid@[i])@ == cand@;
            assert(views(avoid@)[i] == cand@);
            assert(views(avoid@).contains(layer_file(k as nat)));
            lemma_files_fit(views(avoid@), floor, (k + 1) as nat);
        }
        k = k + 1;
    }
}

/// A top-level `<layer>` of the set-aside document, as the merge reads it.
pub struct IncomingLayer {
    /// The element's text, from `<layer` to its end, as the set-aside document has it.
    pub text: String,
    /// Its own `name` attribute.
    pub name: Option<String>,
    /// Every `filename` in its subtree, in document order, each once.
    pub files: Vec<String>,
    /// Every `uuid` in its subtree, in document order, each once.
    pub uuids: Vec<String>,
    /// Unchanged since the version both sides diverged from (same uuid, meaningful metadata and
    /// tile content): it is not folded in.
    pub unchanged: bool,
}

/// An incoming layer as plain values.
pub struct LayerView {
    pub text: Seq<char>,
    pub name: Option<Seq<char>>,
    pub files: Seq<Seq<char>>,
    pub uuids: Seq<Seq<char>>,
    pub unchanged: bool,
}

impl View for IncomingLayer {
    type V = LayerView;

    open spec fn view(&self) -> LayerView {
        LayerView {
            text: self.text@,
            name: match self.name {
                Some(n) => Some(n@),
                None => None,
            },
            files: views(self.files@),
            uuids: views(self.uuids@),
            unchanged: self.unchanged,
        }
    }
}

/// The attribute token `k="v"`.
pub open spec fn attr_spec(k: Seq<char>, v: Seq<char>) -> Seq<char> {
    k + "=\""@ + v + "\""@
}

/// Renaming the data files of a layer's text: each old name in turn takes the first free
/// `layer<k>` at or after `next` that `avoid` does not hold. Gives the text, the next number,
/// `avoid` with the new names, and the `(old, new)` pairs.
pub open spec fn fold_files(text: Seq<char>, files: Seq<Seq<char>>, next: nat, avoid: Seq<Seq<char>>) -> (
    Seq<char>,
    nat,
    Seq<Seq<char>>,
    Seq<(Seq<char>, Seq<char>)>,
)
    decreases files.len(),
{
    if files.len() == 0 {
        (text, next, avoid, Seq::empty())
    } else {
        let r = fold_files(text, files.drop_last(), next, avoid);
        let k = first_free_file(r.1, r.2);
        let old = files.last();
        (
            replace_spec(r.0, attr_spec("filename"@, old), attr_spec("filename"@, layer_file(k))),
            k + 1,
            r.2.push(layer_file(k)),
            r.3.push((old, layer_file(k))),
        )
    }
}

/// The first counter at or after `ctr`, within `fuel` tries and `u64` range, whose id derived
/// from `old` is not `taken`.
pub open spec fn first_free_uuid(old: Seq<char>, ctr: nat, taken: Seq<Seq<char>>, fuel: nat) -> Option<nat>
    decreases fuel,
{
    if fuel == 0 || ctr > u64::MAX {
        None
    } else if !taken.contains(uuid_spec(old, ctr as u64)) {
        Some(ctr)
    } else {
        first_free_uuid(old, ctr + 1, taken, (fuel - 1) as nat)
    }
}

/// Giving every id of a layer's text a fresh one, in turn; `None` when one cannot be found
/// within as many tries as there are taken ids, plus one.
pub open spec fn fold_uuids(text: Seq<char>, uuids: Seq<Seq<char>>, ctr: nat, taken: Seq<Seq<char>>) -> Option<
    (Seq<char>, nat),
>
    decreases uuids.len(),
{
    if uuids.len() == 0 {
        Some((text, ctr))
    } else {
        match fold_uuids(text, uuids.drop_last(), ctr, taken) {
            None => None,
            Some(r) => match first_free_uuid(uuids.last(), r.1, taken, taken.len() + 1) {
                None => None,
                Some(j) => Some(
                    (
                        replace_spec(r.0, attr_spec("uuid"@, uuids.last()), attr_spec("uuid"@, uuid_spec(uuids.last(), j as u64))),
                        j + 1,
                    ),
                ),
            },
        }
    }
}

/// The least `n >= 2` with `name [n]` not among `names`.
pub open spec fn first_free_suffix(name: Seq<char>, names: Seq<Seq<char>>) -> nat {
    choose|n: nat| n >= 2 && !names.contains(suffixed(name, n)) && forall|m: nat| 2 <= m < n ==> names.contains(#[trigger] suffixed(name, m))
}

/// Giving a layer a name not yet used: a name already among `names` is suffixed ` [n]` in the
/// layer's opening tag (the text up to its first `>`); the name kept joins `names`.
pub open spec fn rename_step(text: Seq<char>, name: Option<Seq<char>>, names: Seq<Seq<char>>) -> (Seq<char>, Seq<Seq<char>>) {
    match name {
        None => (text, names),
        Some(nm) => if names.contains(nm) {
            let new = suffixed(nm, first_free_suffix(nm, names));
            let gt = match first_at(text, seq!['>'], 0) {
                Some(g) => g,
                None => text.len() as int,
            };
            let t2 = match renamed(text.take(gt), escape_spec(new)) {
                Some(open) => open + text.skip(gt),
                None => text,
            };
            (t2, names.push(new))
        } else {
            (text, names.push(nm))
        },
    }
}

/// Where a layer merge stands after some incoming layers.
pub struct MergeState {
    /// The folded layers' texts, in order.
    pub frags: Seq<Seq<char>>,
    /// The next layer data file number to try.
    pub next: nat,
    /// The layer data file names in use.
    pub avoid: Seq<Seq<char>>,
    /// `(old, new)` for every layer data file renamed.
    pub renames: Seq<(Seq<char>, Seq<char>)>,
    /// The next id counter.
    pub ctr: nat,
    /// The top-level layer names in use.
    pub names: Seq<Seq<char>>,
}

/// Folding the incoming layers in order: an unchanged layer is skipped; any other has its data
/// files renamed, its ids replaced and, on a name clash, its name suffixed, and joins the
/// fragments.
pub open spec fn fold_layers_spec(layers: Seq<LayerView>, taken_uuids: Seq<Seq<char>>, init: MergeState) -> Option<MergeState>
    decreases layers.len(),
{
    if layers.len() == 0 {
        Some(init)
    } else {
        match fold_layers_spec(layers.drop_last(), taken_uuids, init) {
            None => None,
            Some(st) => layer_step(st, layers.last(), taken_uuids),
        }
    }
}

/// One incoming layer folded onto the state `st`.
pub open spec fn layer_step(st: MergeState, l: LayerView, taken_uuids: Seq<Seq<char>>) -> Option<MergeState> {
    if l.unchanged {
        Some(st)
    } else {
        let f = fold_files(l.text, l.files, st.next, st.avoid);
        match fold_uuids(f.0, l.uuids, st.ctr, taken_uuids) {
            None => None,
            Some(u) => {
                let n = rename_step(u.0, l.name, st.names);
                Some(
                    MergeState {
                        frags: st.frags.push(n.0),
                        next: f.1,
                        avoid: f.2,
                        renames: st.renames + f.3,
                        ctr: u.1,
                        names: n.1,
                    },
                )
            },
        }
    }
}

/// The fragments, each after a line feed.
pub open spec fn joined_frags(frags: Seq<Seq<char>>) -> Seq<char>
    decreases frags.len(),
{
    if frags.len() == 0 {
        Seq::empty()
    } else {
        joined_frags(frags.drop_last()) + seq!['\n'] + frags.last()
    }
}

/// The result of folding `layers` into the base document `base`, whose top-level `<layers>`
/// element spans `[layers_start, layers_end)`: the merged document text and the layer data
/// files renamed, or the message of the refusal.
pub open spec fn merged_spec(
    base: Seq<char>,
    layers_start: int,
    layers_end: int,
    taken_names: Seq<Seq<char>>,
    taken_files: Seq<Seq<char>>,
    taken_uuids: Seq<Seq<char>>,
    layers: Seq<LayerView>,
) -> Result<(Seq<char>, Seq<(Seq<char>, Seq<char>)>), Seq<char>> {
    let init = MergeState {
        frags: Seq::empty(),
        next: max_layer_number(taken_files) + 1,
        avoid: taken_files,
        renames: Seq::empty(),
        ctr: 0,
        names: taken_names,
    };
    match fold_layers_spec(layers, taken_uuids, init) {
        None => Err("no fresh layer id is left"@),
        Some(st) => if st.frags.len() == 0 {
            Err("set-aside file has no changed layers to bring back"@)
        } else {
            match first_at(base, seq!['>'], layers_start) {
                Some(p) => if p < layers_end {
                    Ok((base.take(p + 1) + joined_frags(st.frags) + base.skip(p + 1), st.renames))
                } else {
                    Err("base <layers> tag is malformed"@)
                },
                None => Err("base <layers> tag is malformed"@),
            }
        },
    }
}

pub(crate) proof fn lemma_views_contains(v: Seq<String>, t: Seq<char>)
    ensures
        views(v).contains(t) == text_set(v).contains(t),
{
    if views(v).contains(t) {
        let i = choose|i: int| 0 <= i < views(v).len() && views(v)[i] == t;
        assert(v[i]@ == t);
    }
    if text_set(v).contains(t) {
        let i = choose|i: int| 0 <= i < v.len() && (#[trigger] v[i])@ == t;
        assert(views(v)[i] == t);
    }
}

fn copy_texts(v: &Vec<String>) -> (r: Vec<String>)
    ensures
        r@ == v@,
{
    let mut out: Vec<String> = Vec::new();
    let mut i: usize = 0;
    while i < v.len()
        invariant
            i <= v@.len(),
            out@ == v@.take(i as int),
        decreases v@.len() - i,
    {
        out.push(v[i].clone());
        proof {
            assert(out@ =~= v@.take(i + 1));
        }
        i = i + 1;
    }
    proof {
        assert(v@.take(v@.len() as int) =~= v@);
    }
    out
}

fn fold_files_exec(
    text: String,
    files: &Vec<String>,
    next: &mut u128,
    avoid: &mut Vec<String>,
    renames: &mut Vec<(String, String)>,
    Ghost(floor): Ghost<nat>,
) -> (r: String)
    requires
        floor <= *old(next),
        floor <= 0x1_0000_0000_0000_0000,
        forall|j: nat| floor <= j < *old(next) ==> views(old(avoid)@).contains(#[trigger] layer_file(j)),
    ensures
        ({
            let f = fold_files(text@, views(files@), *old(next) as nat, views(old(avoid)@));
            &&& r@ == f.0
            &&& *final(next) == f.1
            &&& views(final(avoid)@) == f.2
            &&& crate::kra::pair_views(final(renames)@) == crate::kra::pair_views(old(renames)@) + f.3
        }),
        floor <= *final(next),
        forall|j: nat| floor <= j < *final(next) ==> views(final(avoid)@).contains(#[trigger] layer_file(j)),
{
    let ghost next0 = *next as nat;
    let ghost avoid0 = views(avoid@);
    let ghost ren0 = crate::kra::pair_views(renames@);
    let mut t = text;
    let mut i: usize = 0;
    while i < files.len()
        invariant
            i <= files@.len(),
            floor <= *next,
            floor <= 0x1_0000_0000_0000_0000,
            forall|j: nat| floor <= j < *next ==> views(avoid@).contains(#[trigger] layer_file(j)),
            ({
                let f = fold_files(text@, views(files@).take(i as int), next0, avoid0);
                &&& t@ == f.0
                &&& *next == f.1
                &&& views(avoid@) == f.2
                &&& crate::kra::pair_views(renames@) == ren0 + f.3
            }),
        decreases files@.len() - i,
    {
        proof {
            assert(views(files@).take(i + 1).drop_last() =~= views(files@).take(i as int));
            assert(views(files@).take(i + 1).last() == files@[i as int]@);
        }
        let _al = avoid.len();
        let (cand, nx) = fresh_file(*next, avoid, Ghost(floor));
        let from = attr("filename", files[i].as_str());
        let to = attr("filename", cand.as_str());
        proof {
            reveal_strlit("filename");
            reveal_strlit("=\"");
            reveal_strlit("\"");
        }
        t = replace_all(t.as_str(), from.as_str(), to.as_str());
        let ghost av = avoid@;
        let ghost rv = renames@;
        avoid.push(cand.clone());
        renames.push((files[i].clone(), cand));
        *next = nx;
        proof {
            assert(views(avoid@) =~= views(av).push(layer_file(first_free_file((nx - 1) as nat, views(av)))));
            assert(crate::kra::pair_views(renames@) =~= crate::kra::pair_views(rv).push(
                (files@[i as int]@, layer_file(first_free_file((nx - 1) as nat, views(av)))),
            ));
            assert forall|j: nat| floor <= j < *next implies views(avoid@).contains(#[trigger] layer_file(j)) by {
                if j < nx - 1 {
                    assert(views(av).contains(layer_file(j)));
                    let q = choose|q: int| 0 <= q < views(av).len() && views(av)[q] == layer_file(j);
                    assert(views(avoid@)[q] == layer_file(j));
                } else {
                    assert(views(avoid@)[views(av).len() as int] == layer_file(j));
                }
            }
        }
        i = i + 1;
    }
    proof {
        assert(views(files@).take(files@.len() as int) =~= views(files@));
    }
    t
}

fn first_free_uuid_exec(old_id: &str, ctr: u128, taken: &Vec<String>) -> (r: Option<u128>)
    requires
        ctr <= u64::MAX + 1,
    ensures
        match first_free_uuid(old_id@, ctr as nat, views(taken@), taken@.len() + 1) {
            None => r is None,
            Some(j) => r == Some(j as u128) && j <= u64::MAX,
        },
{
    let ghost tk = views(taken@);
    let mut c: u128 = ctr;
    let mut tries: u128 = 0;
    loop
        invariant
            tries <= taken@.len() + 1,
            tk == views(taken@),
            c <= u64::MAX + 1,
            ctr <= c,
            first_free_uuid(old_id@, ctr as nat, tk, tk.len() + 1) == first_free_uuid(old_id@, c as nat, tk, (tk.len() + 1 - tries) as nat),
        decreases taken@.len() + 1 - tries,
    {
        if tries > taken.len() as u128 || c > u64::MAX as u128 {
            return None;
        }
        let cand = fresh_uuid(old_id, c as u64);
        proof {
            lemma_views_contains(taken@, cand@);
        }
        if !crate::commit::contains_text(taken, cand.as_str()) {
            return Some(c);
        }
        c = c + 1;
        tries = tries + 1;
    }
}

fn fold_uuids_exec(text: String, uuids: &Vec<String>, ctr: &mut u128, taken: &Vec<String>) -> (r: Option<String>)
    requires
        *old(ctr) <= u64::MAX + 1,
    ensures
        match fold_uuids(text@, views(uuids@), *old(ctr) as nat, views(taken@)) {
            None => r is None,
            Some(u) => r matches Some(t) && t@ == u.0 && *final(ctr) == u.1,
        },
        *final(ctr) <= u64::MAX + 1,
{
    let ghost c0 = *ctr as nat;
    let ghost tk = views(taken@);
    let mut t = text;
    let mut i: usize = 0;
    while i < uuids.len()
        invariant
            i <= uuids@.len(),
            tk == views(taken@),
            c0 == *old(ctr) as nat,
            *ctr <= u64::MAX + 1,
            fold_uuids(text@, views(uuids@).take(i as int), c0, tk) == Some((t@, *ctr as nat)),
        decreases uuids@.len() - i,
    {
        proof {
            assert(views(uuids@).take(i + 1).drop_last() =~= views(uuids@).take(i as int));
            assert(views(uuids@).take(i + 1).last() == uuids@[i as int]@);
        }
        let old_id = uuids[i].as_str();
        let found = match first_free_uuid_exec(old_id, *ctr, taken) {
            None => {
                proof {
                    assert(tk.len() == taken@.len());
                    assert(fold_uuids(text@, views(uuids@).take(i + 1), c0, tk) is None);
                    lemma_fold_uuids_none(text@, views(uuids@), c0, tk, (i + 1) as int);
                    assert(c0 == *old(ctr) as nat);
                    assert(fold_uuids(text@, views(uuids@), *old(ctr) as nat, views(taken@)) is None);
                }
                return None;
            },
            Some(j) => j,
        };
        proof {
            assert(tk.len() == taken@.len());
        }
        let cand = fresh_uuid(old_id, found as u64);
        let from = attr("uuid", old_id);
        let to = attr("uuid", cand.as_str());
        proof {
            reveal_strlit("uuid");
            reveal_strlit("=\"");
            reveal_strlit("\"");
        }
        t = replace_all(t.as_str(), from.as_str(), to.as_str());
        *ctr = found + 1;
        i = i + 1;
    }
    proof {
        assert(views(uuids@).take(uuids@.len() as int) =~= views(uuids@));
    }
    Some(t)
}

proof fn lemma_fold_uuids_none(text: Seq<char>, uuids: Seq<Seq<char>>, ctr: nat, taken: Seq<Seq<char>>, n: int)
    requires
        0 <= n <= uuids.len(),
        fold_uuids(text, uuids.take(n), ctr, taken) is None,
    ensures
        fold_uuids(text, uuids, ctr, taken) is None,
    decreases uuids.len() - n,
{
    if n < uuids.len() {
        assert(uuids.take(n + 1).drop_last() =~= uuids.take(n));
        lemma_fold_uuids_none(text, uuids, ctr, taken, n + 1);
    } else {
        assert(uuids.take(n) =~= uuids);
    }
}

proof fn lemma_first_free_suffix(name: Seq<char>, names: Seq<Seq<char>>, n: nat)
    requires
        n >= 2,
        !names.contains(suffixed(name, n)),
        forall|m: nat| 2 <= m < n ==> names.contains(#[trigger] suffixed(name, m)),
    ensures
        first_free_suffix(name, names) == n,
{
    let c = first_free_suffix(name, names);
    assert(c >= 2 && !names.contains(suffixed(name, c)) && forall|m: nat| 2 <= m < c ==> names.contains(#[trigger] suffixed(name, m)));
    if c < n {
        assert(names.contains(suffixed(name, c)));
    } else if c > n {
        assert(names.contains(suffixed(name, n)));
    }
}

fn chars_string(s: &Vec<char>, from: usize, to: usize) -> (r: String)
    requires
        from <= to <= s@.len(),
    ensures
        r@ == s@.subrange(from as int, to as int),
{
    let mut out: Vec<char> = Vec::new();
    push_range(&mut out, s, from, to);
    assert(out@ =~= s@.subrange(from as int, to as int));
    string_of_chars(out.as_slice())
}

fn rename_exec(text: String, name: &Option<String>, names: &mut Vec<String>) -> (r: String)
    requires
        old(names)@.len() < u64::MAX - 2,
    ensures
        (r@, views(final(names)@)) == rename_step(
            text@,
            match name {
                Some(n) => Some(n@),
                None => None,
            },
            views(old(names)@),
        ),
        final(names)@.len() <= old(names)@.len() + 1,
{
    match name {
        None => text,
        Some(nm) => {
            let ghost before = names@;
            if crate::commit::contains_text(names, nm.as_str()) {
                proof {
                    lemma_views_contains(names@, nm@);
                }
                let new = unique_name(nm.as_str(), names);
                proof {
                    let n = choose|n: nat|
                        n >= 2 && new@ == suffixed(nm@, n) && !text_set(names@).contains(suffixed(nm@, n)) && forall|m: nat|
                            2 <= m < n ==> text_set(names@).contains(#[trigger] suffixed(nm@, m));
                    lemma_views_contains(names@, suffixed(nm@, n));
                    assert forall|m: nat| 2 <= m < n implies views(names@).contains(#[trigger] suffixed(nm@, m)) by {
                        lemma_views_contains(names@, suffixed(nm@, m));
                    }
                    lemma_first_free_suffix(nm@, views(names@), n);
                }
                let tc = chars_of(text.as_str());
                let gt = match find_char_from(&tc, '>', 0) {
                    Some(g) => g,
                    None => tc.len(),
                };
                proof {
                    lemma_first_at_bounds(tc@, seq!['>'], 0);
                }
                let prefix = chars_string(&tc, 0, gt);
                proof {
                    assert(prefix@ =~= text@.take(gt as int));
                }
                let esc = xml_escape(new.as_str());
                let out = match set_open_name(prefix.as_str(), esc.as_str()) {
                    Some(open) => {
                        let mut res = open;
                        let suffix = chars_string(&tc, gt, tc.len());
                        proof {
                            assert(suffix@ =~= text@.skip(gt as int));
                        }
                        res.append(suffix.as_str());
                        res
                    },
                    None => text,
                };
                names.push(new);
                proof {
                    assert(views(names@) =~= views(before).push(suffixed(nm@, first_free_suffix(nm@, views(before)))));
                }
                out
            } else {
                proof {
                    lemma_views_contains(names@, nm@);
                }
                names.push(nm.clone());
                proof {
                    assert(views(names@) =~= views(before).push(nm@));
                }
                text
            }
        },
    }
}

proof fn lemma_fold_layers_none(layers: Seq<LayerView>, taken: Seq<Seq<char>>, init: MergeState, n: int)
    requires
        0 <= n <= layers.len(),
        fold_layers_spec(layers.take(n), taken, init) is None,
    ensures
        fold_layers_spec(layers, taken, init) is None,
    decreases layers.len() - n,
{
    if n < layers.len() {
        assert(layers.take(n + 1).drop_last() =~= layers.take(n));
        lemma_fold_layers_none(layers, taken, init, n + 1);
    } else {
        assert(layers.take(n) =~= layers);
    }
}

/// The state of a merge in progress as plain values.
pub open spec fn state_of(
    frags: Seq<String>,
    next: u128,
    avoid: Seq<String>,
    renames: Seq<(String, String)>,
    ctr: u128,
    names: Seq<String>,
) -> MergeState {
    MergeState {
        frags: views(frags),
        next: next as nat,
        avoid: views(avoid),
        renames: crate::kra::pair_views(renames),
        ctr: ctr as nat,
        names: views(names),
    }
}

fn fold_one(
    l: &IncomingLayer,
    frags: &mut Vec<String>,
    next: &mut u128,
    avoid: &mut Vec<String>,
    renames: &mut Vec<(String, String)>,
    ctr: &mut u128,
    names: &mut Vec<String>,
    taken_uuids: &Vec<String>,
    Ghost(floor): Ghost<nat>,
) -> (ok: bool)
    requires
        floor <= *old(next),
        floor <= 0x1_0000_0000_0000_0000,
        forall|j: nat| floor <= j < *old(next) ==> views(old(avoid)@).contains(#[trigger] layer_file(j)),
        *old(ctr) <= u64::MAX + 1,
        old(names)@.len() < u64::MAX - 2,
    ensures
        ok == layer_step(
            state_of(old(frags)@, *old(next), old(avoid)@, old(renames)@, *old(ctr), old(names)@),
            l@,
            views(taken_uuids@),
        ) is Some,
        ok ==> layer_step(
            state_of(old(frags)@, *old(next), old(avoid)@, old(renames)@, *old(ctr), old(names)@),
            l@,
            views(taken_uuids@),
        ) == Some(state_of(final(frags)@, *final(next), final(avoid)@, final(renames)@, *final(ctr), final(names)@)),
        floor <= *final(next),
        forall|j: nat| floor <= j < *final(next) ==> views(final(avoid)@).contains(#[trigger] layer_file(j)),
        *final(ctr) <= u64::MAX + 1,
        final(names)@.len() <= old(names)@.len() + 1,
{
    if l.unchanged {
        return true;
    }
    let t1 = fold_files_exec(l.text.clone(), &l.files, next, avoid, renames, Ghost(floor));
    match fold_uuids_exec(t1, &l.uuids, ctr, taken_uuids) {
        None => false,
        Some(t2) => {
            let t3 = rename_exec(t2, &l.name, names);
            let ghost fv = frags@;
            frags.push(t3);
            proof {
                assert(views(frags@) =~= views(fv).push(frags@[fv.len() as int]@));
            }
            true
        },
    }
}

/// The incoming layers as plain values.
pub open spec fn layer_views(v: Seq<IncomingLayer>) -> Seq<LayerView> {
    v.map_values(|l: IncomingLayer| l@)
}

/// Fold the changed incoming layers on top of the base document's layer stack (see
/// [`merged_spec`]): each changed layer, in order, has its data files renamed to fresh
/// `layer<k>` names above the base's highest, every id replaced by a fresh one and, when its
/// name is taken, its name suffixed; the fragments are spliced in as the first children of the
/// base `<layers>` element (which spans `[layers_start, layers_end)` of `base_xml`). Gives the
/// merged document text and the `(old, new)` data file renames, or the refusal.
pub fn fold_layers(
    base_xml: &str,
    layers_start: usize,
    layers_end: usize,
    taken_names: &Vec<String>,
    taken_files: &Vec<String>,
    taken_uuids: &Vec<String>,
    incoming: &Vec<IncomingLayer>,
) -> (r: Result<(String, Vec<(String, String)>), KvcError>)
    requires
        taken_names@.len() + incoming@.len() < u64::MAX - 2,
    ensures
        match merged_spec(
            base_xml@,
            layers_start as int,
            layers_end as int,
            views(taken_names@),
            views(taken_files@),
            views(taken_uuids@),
            layer_views(incoming@),
        ) {
            Ok(ok) => r matches Ok(out) && out.0@ == ok.0 && crate::kra::pair_views(out.1@) == ok.1,
            Err(msg) => r matches Err(KvcError::MergeFailed(m)) && m@ == msg,
        },
{
    let ghost lv = layer_views(incoming@);
    let ghost tku = views(taken_uuids@);
    let mut next: u128 = max_number(taken_files) as u128 + 1;
    let ghost init = MergeState {
        frags: Seq::empty(),
        next: max_layer_number(views(taken_files@)) + 1,
        avoid: views(taken_files@),
        renames: Seq::empty(),
        ctr: 0,
        names: views(taken_names@),
    };
    let ghost floor = next as nat;
    let mut frags: Vec<String> = Vec::new();
    let mut avoid = copy_texts(taken_files);
    let mut renames: Vec<(String, String)> = Vec::new();
    let mut ctr: u128 = 0;
    let mut names = copy_texts(taken_names);
    let mut i: usize = 0;
    proof {
        assert(lv.take(0) =~= Seq::<LayerView>::empty());
        assert(views(frags@) =~= Seq::<Seq<char>>::empty());
        assert(crate::kra::pair_views(renames@) =~= Seq::<(Seq<char>, Seq<char>)>::empty());
        assert(state_of(frags@, next, avoid@, renames@, ctr, names@) == init);
    }
    while i < incoming.len()
        invariant
            i <= incoming@.len(),
            lv == layer_views(incoming@),
            tku == views(taken_uuids@),
            init == (MergeState {
                frags: Seq::empty(),
                next: max_layer_number(views(taken_files@)) + 1,
                avoid: views(taken_files@),
                renames: Seq::empty(),
                ctr: 0,
                names: views(taken_names@),
            }),
            taken_names@.len() + incoming@.len() < u64::MAX - 2,
            names@.len() <= taken_names@.len() + i,
            fold_layers_spec(lv.take(i as int), tku, init) == Some(state_of(frags@, next, avoid@, renames@, ctr, names@)),
            floor <= next,
            floor <= 0x1_0000_0000_0000_0000,
            forall|j: nat| floor <= j < next ==> views(avoid@).contains(#[trigger] layer_file(j)),
            ctr <= u64::MAX + 1,
        decreases incoming@.len() - i,
    {
        proof {
            assert(lv.take(i + 1).drop_last() =~= lv.take(i as int));
            assert(lv.take(i + 1).last() == incoming@[i as int]@);
        }
        if !fold_one(&incoming[i], &mut frags, &mut next, &mut avoid, &mut renames, &mut ctr, &mut names, taken_uuids, Ghost(floor)) {
            proof {
                assert(fold_layers_spec(lv.take(i + 1), tku, init) is None);
                lemma_fold_layers_none(lv, tku, init, (i + 1) as int);
                reveal_strlit("no fresh layer id is left");
            }
            return Err(fail("no fresh layer id is left"));
        }
        i = i + 1;
    }
    proof {
        assert(lv.take(incoming@.len() as int) =~= lv);
        reveal_strlit("set-aside file has no changed layers to bring back");
        reveal_strlit("base <layers> tag is malformed");
    }
    if frags.len() == 0 {
        return Err(fail("set-aside file has no changed layers to bring back"));
    }
    let bc = chars_of(base_xml);
    if layers_start > bc.len() {
        proof {
            assert(crate::chains::first_at(bc@, seq!['>'], layers_start as int) is None);
        }
        return Err(fail("base <layers> tag is malformed"));
    }
    let p = match find_char_from(&bc, '>', layers_start) {
        Some(p) => p,
        None => return Err(fail("base <layers> tag is malformed")),
    };
    proof {
        lemma_first_at_bounds(bc@, seq!['>'], layers_start as int);
    }
    if p >= layers_end {
        return Err(fail("base <layers> tag is malformed"));
    }
    let mut merged = chars_string(&bc, 0, p + 1);
    let ghost head = merged@;
    let mut k: usize = 0;
    while k < frags.len()
        invariant
            k <= frags@.len(),
            merged@ == head + joined_frags(views(frags@).take(k as int)),
        decreases frags@.len() - k,
    {
        proof {
            assert(views(frags@).take(k + 1).drop_last() =~= views(frags@).take(k as int));
            assert(views(frags@).take(k + 1).last() == frags@[k as int]@);
            reveal_strlit("\n");
            assert("\n"@ =~= seq!['\n']);
        }
        merged.append("\n");
        merged.append(frags[k].as_str());
        k = k + 1;
    }
    proof {
        assert(views(frags@).take(frags@.len() as int) =~= views(frags@));
    }
    let tail = chars_string(&bc, p + 1, bc.len());
    merged.append(tail.as_str());
    proof {
        assert(head =~= base_xml@.take(p + 1));
        assert(tail@ =~= base_xml@.skip(p + 1));
    }
    Ok((merged, renames))
}

/// Whether tile `a` does not come after tile `b` in `(x, y)` order.
pub open spec fn key_le(a: crate::tiles::TileView, b: crate::tiles::TileView) -> bool {
    a.0 < b.0 || (a.0 == b.0 && a.1 <= b.1)
}

/// Where tile `t` goes among tiles already in `(x, y)` order: after every tile that does not
/// come after it.
pub open spec fn insert_pos(sorted: Seq<crate::tiles::TileView>, t: crate::tiles::TileView) -> int
    decreases sorted.len(),
{
    if sorted.len() == 0 || !key_le(sorted[0], t) {
        0
    } else {
        1 + insert_pos(sorted.skip(1), t)
    }
}

/// The tiles in `(x, y)` order, tiles at the same position in their stored order.
pub open spec fn sort_tiles(ts: Seq<crate::tiles::TileView>) -> Seq<crate::tiles::TileView>
    decreases ts.len(),
{
    if ts.len() == 0 {
        Seq::empty()
    } else {
        let s = sort_tiles(ts.drop_last());
        s.insert(insert_pos(s, ts.last()), ts.last())
    }
}

/// The canonical records of tiles: each a line feed, its descriptor line and its data.
pub open spec fn canon_records(ts: Seq<crate::tiles::TileView>) -> Seq<u8>
    decreases ts.len(),
{
    if ts.len() == 0 {
        Seq::empty()
    } else {
        canon_records(ts.drop_last()) + seq![10u8] + crate::tiles::descriptor_bytes(ts.last()) + ts.last().3
    }
}

/// The order-independent form of one layer data entry: a tiled block becomes its header and
/// its tiles in `(x, y)` order; anything else stays as it is.
pub open spec fn canon_spec(bytes: Seq<u8>) -> Seq<u8> {
    match crate::tiles::parse_block(bytes) {
        Ok(b) => vstd::utf8::encode_utf8(b.0) + canon_records(sort_tiles(b.1)),
        Err(_) => bytes,
    }
}

proof fn lemma_insert_pos_bound(sorted: Seq<crate::tiles::TileView>, t: crate::tiles::TileView)
    ensures
        0 <= insert_pos(sorted, t) <= sorted.len(),
    decreases sorted.len(),
{
    if sorted.len() > 0 && key_le(sorted[0], t) {
        lemma_insert_pos_bound(sorted.skip(1), t);
    }
}

/// Canonical, order-independent form of one layer data entry: two saves that wrote the same
/// tiles in a different order compare equal.
pub fn canon_entry(bytes: &[u8]) -> (r: Vec<u8>)
    ensures
        r@ == canon_spec(bytes@),
{
    let block = match crate::tiles::parse(bytes) {
        Err(_) => {
            let mut v: Vec<u8> = Vec::new();
            crate::text::push_all(&mut v, bytes);
            assert(v@ =~= bytes@);
            return v;
        },
        Ok(b) => b,
    };
    let ghost tv = block@.1;
    let mut sorted: Vec<crate::tiles::Tile> = Vec::new();
    let mut i: usize = 0;
    while i < block.tiles.len()
        invariant
            i <= block.tiles@.len(),
            tv == block@.1,
            tv.len() == block.tiles@.len(),
            sorted@.map_values(|t: crate::tiles::Tile| t@) == sort_tiles(tv.take(i as int)),
        decreases block.tiles@.len() - i,
    {
        let src = &block.tiles[i];
        let mut data: Vec<u8> = Vec::new();
        crate::text::push_all(&mut data, src.data.as_slice());
        assert(data@ =~= src.data@);
        let t = crate::tiles::Tile { x: src.x, y: src.y, compression: src.compression.clone(), data };
        proof {
            assert(tv.take(i + 1).drop_last() =~= tv.take(i as int));
            assert(tv.take(i + 1).last() == tv[i as int]);
            assert(tv[i as int] == block.tiles@[i as int]@);
        }
        let ghost sv = sorted@.map_values(|t: crate::tiles::Tile| t@);
        let mut p: usize = 0;
        assert(sv.skip(0) =~= sv);
        while p < sorted.len() && (sorted[p].x < t.x || (sorted[p].x == t.x && sorted[p].y <= t.y))
            invariant
                p <= sorted@.len(),
                sv == sorted@.map_values(|t: crate::tiles::Tile| t@),
                insert_pos(sv, t@) == p + insert_pos(sv.skip(p as int), t@),
            decreases sorted@.len() - p,
        {
            proof {
                assert(sv.skip(p as int)[0] == sorted@[p as int]@);
                assert(sv.skip(p as int).skip(1) =~= sv.skip(p + 1));
            }
            p = p + 1;
        }
        proof {
            if p < sorted@.len() {
                assert(sv.skip(p as int)[0] == sorted@[p as int]@);
            }
            assert(insert_pos(sv, t@) == p);
        }
        let ghost tt = t@;
        sorted.insert(p, t);
        proof {
            assert(sorted@.map_values(|t: crate::tiles::Tile| t@) =~= sv.insert(p as int, tt));
        }
        i = i + 1;
    }
    proof {
        assert(tv.take(tv.len() as int) =~= tv);
    }
    let mut out: Vec<u8> = Vec::new();
    crate::text::push_all(&mut out, block.header.as_str().as_bytes());
    let ghost sv = sorted@.map_values(|t: crate::tiles::Tile| t@);
    let mut k: usize = 0;
    while k < sorted.len()
        invariant
            k <= sorted@.len(),
            sv == sorted@.map_values(|t: crate::tiles::Tile| t@),
            out@ == vstd::utf8::encode_utf8(block.header@) + canon_records(sv.take(k as int)),
        decreases sorted@.len() - k,
    {
        proof {
            assert(sv.take(k + 1).drop_last() =~= sv.take(k as int));
            assert(sv.take(k + 1).last() == sorted@[k as int]@);
        }
        let ghost before = out@;
        out.push(10u8);
        crate::tiles::push_record(&mut out, &sorted[k]);
        proof {
            assert(out@ =~= before + seq![10u8] + crate::tiles::descriptor_bytes(sorted@[k as int]@) + sorted@[k as int]@.3);
        }
        k = k + 1;
    }
    proof {
        assert(sv.take(sv.len() as int) =~= sv);
    }
    out
}

/// The value of attribute `k` among `attrs`, empty when absent.
pub open spec fn attr_or_empty(attrs: Seq<(String, String)>, k: Seq<char>) -> Seq<char>
    decreases attrs.len(),
{
    if attrs.len() == 0 {
        Seq::empty()
    } else if attrs[0].0@ == k {
        attrs[0].1@
    } else {
        attr_or_empty(attrs.skip(1), k)
    }
}

/// The meaningful-metadata signature of a layer with attributes `attrs`: `k=value` for its
/// name, opacity, blending, visibility and offset, NUL-separated. Krita's per-save churn
/// (`selected`, `collapsed`, …) is left out.
pub open spec fn sig_spec(attrs: Seq<(String, String)>) -> Seq<char> {
    "name="@ + attr_or_empty(attrs, "name"@) + "\0opacity="@ + attr_or_empty(attrs, "opacity"@) + "\0compositeop="@
        + attr_or_empty(attrs, "compositeop"@) + "\0visible="@ + attr_or_empty(attrs, "visible"@) + "\0x="@
        + attr_or_empty(attrs, "x"@) + "\0y="@ + attr_or_empty(attrs, "y"@)
}

fn attr_value(attrs: &Vec<(String, String)>, k: &str) -> (r: String)
    ensures
        r@ == attr_or_empty(attrs@, k@),
{
    let mut i: usize = 0;
    assert(attrs@.skip(0) =~= attrs@);
    while i < attrs.len()
        invariant
            i <= attrs@.len(),
            attr_or_empty(attrs@, k@) == attr_or_empty(attrs@.skip(i as int), k@),
        decreases attrs@.len() - i,
    {
        assert(attrs@.skip(i as int)[0] == attrs@[i as int]);
        assert(attrs@.skip(i as int).skip(1) =~= attrs@.skip(i + 1));
        if crate::text::str_eq(attrs[i].0.as_str(), k) {
            return attrs[i].1.clone();
        }
        i = i + 1;
    }
    String::new()
}

/// The meaningful-metadata signature of a layer, from its attributes (name and value, in the
/// order the element gives them).
pub fn layer_sig(attrs: &Vec<(String, String)>) -> (r: String)
    ensures
        r@ == sig_spec(attrs@),
{
    proof {
        reveal_strlit("name=");
        reveal_strlit("\0opacity=");
        reveal_strlit("\0compositeop=");
        reveal_strlit("\0visible=");
        reveal_strlit("\0x=");
        reveal_strlit("\0y=");
    }
    let mut out = String::from_str("name=");
    out.append(attr_value(attrs, "name").as_str());
    out.append("\0opacity=");
    out.append(attr_value(attrs, "opacity").as_str());
    out.append("\0compositeop=");
    out.append(attr_value(attrs, "compositeop").as_str());
    out.append("\0visible=");
    out.append(attr_value(attrs, "visible").as_str());
    out.append("\0x=");
    out.append(attr_value(attrs, "x").as_str());
    out.append("\0y=");
    out.append(attr_value(attrs, "y").as_str());
    out
}

} // verus!
