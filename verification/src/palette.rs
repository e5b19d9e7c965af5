//! Color palettes reduced to flat lists of named 8-bit sRGB swatches, and their swatch-level
//! diff. GIMP `.gpl` (text), Adobe `.aco` and `.ase` (binary) are read here; a swatch whose
//! color needs floating-point conversion (CMYK, Lab) is listed as pending for the caller.

use crate::text::{
    chars_of, is_white_space, parse_i32_chars, parse_i32_spec, parse_u32_chars, parse_u32_spec,
    ends_with, lowercase, str_ends_with, str_eq, str_from_utf8, string_of_chars, to_lowercase,
    trim_end, trim_range, trim_start, white_space,
};
use crate::commit::join_texts;
use vstd::prelude::*;
use vstd::string::StringExecFns;

verus! {

/// One named color, reduced to 8-bit sRGB.
#[derive(Debug)]
pub struct Swatch {
    pub name: String,
    pub rgb: (u8, u8, u8),
}

/// A color read from a file that only floating-point arithmetic turns into sRGB.
#[derive(Debug, Clone, Copy, PartialEq, Eq, Structural)]
pub enum FloatColor {
    /// An `.aco` CMYK color: four 16-bit components, inverted.
    AcoCmyk(u16, u16, u16, u16),
    /// An `.ase` CMYK color: four IEEE-754 single-precision bit patterns.
    AseCmyk(u32, u32, u32, u32),
    /// An `.ase` Lab color: three IEEE-754 single-precision bit patterns.
    AseLab(u32, u32, u32),
}

/// A swatch whose color the caller still has to convert: its position, whether the file gave
/// it a name (else its name becomes the `#RRGGBB` of the converted color), and the color.
#[derive(Debug, Clone, Copy, PartialEq, Eq, Structural)]
pub struct Pending {
    pub index: usize,
    pub named: bool,
    pub color: FloatColor,
}

/// A parsed palette: its swatches and the grid column count when the format records one
/// (0 for unknown). Swatches listed in `pending` carry `(0, 0, 0)` until converted.
#[derive(Debug)]
pub struct Palette {
    pub columns: u32,
    pub swatches: Vec<Swatch>,
    pub pending: Vec<Pending>,
}

/// One swatch's fate between two palette versions; `before` and `after` are `#RRGGBB`.
#[derive(Debug, Clone)]
pub struct SwatchDiff {
    pub name: String,
    pub before: Option<String>,
    pub after: Option<String>,
    /// `added`, `removed`, `modified` or `unchanged`.
    pub change: String,
}

/// The swatch-level diff of two palettes.
#[derive(Debug, Clone)]
pub struct PaletteDiff {
    pub columns: u32,
    pub swatches: Vec<SwatchDiff>,
}

/// The upper-case hex digit of `v` (`0..16`), as an ASCII byte.
pub open spec fn upper_digit(v: int) -> u8 {
    if v < 10 {
        (48 + v) as u8
    } else {
        (55 + v) as u8
    }
}

/// `#RRGGBB`, upper-case.
pub open spec fn rgb_hex(rgb: (u8, u8, u8)) -> Seq<char> {
    seq![
        '#',
        upper_digit((rgb.0 / 16) as int) as char,
        upper_digit((rgb.0 % 16) as int) as char,
        upper_digit((rgb.1 / 16) as int) as char,
        upper_digit((rgb.1 % 16) as int) as char,
        upper_digit((rgb.2 / 16) as int) as char,
        upper_digit((rgb.2 % 16) as int) as char,
    ]
}

fn upper(v: u8) -> (r: u8)
    requires
        v < 16,
    ensures
        r == upper_digit(v as int),
{
    if v < 10 {
        48 + v
    } else {
        55 + v
    }
}

/// `#RRGGBB` of a color, upper-case.
pub fn hex(rgb: (u8, u8, u8)) -> (s: String)
    ensures
        s@ == rgb_hex(rgb),
{
    let b: Vec<u8> = vec![
        35u8,
        upper(rgb.0 / 16),
        upper(rgb.0 % 16),
        upper(rgb.1 / 16),
        upper(rgb.1 % 16),
        upper(rgb.2 / 16),
        upper(rgb.2 % 16),
    ];
    assert(crate::text::all_ascii(b@));
    let s = crate::text::ascii_string(b.as_slice());
    assert(s@ =~= rgb_hex(rgb));
    s
}


/// A swatch diff as plain values: `(name, before, after, change)`.
pub type DiffView = (Seq<char>, Option<Seq<char>>, Option<Seq<char>>, Seq<char>);

impl View for SwatchDiff {
    type V = DiffView;

    open spec fn view(&self) -> DiffView {
        (self.name@, self.before.deep_view(), self.after.deep_view(), self.change@)
    }
}

/// The first old swatch at or after `i` that is not yet matched and carries `name`.
pub open spec fn first_unused(olds: Seq<Swatch>, used: Seq<bool>, name: Seq<char>, i: int) -> Option<
    int,
>
    decreases olds.len() - i,
{
    if i < 0 || i >= olds.len() {
        None
    } else if !used[i] && olds[i].name@ == name {
        Some(i)
    } else {
        first_unused(olds, used, name, i + 1)
    }
}

/// Matching the new swatches in order against the old ones: which old swatches got matched,
/// and the entries of the new swatches. A new swatch matches the first old one of the same
/// name not matched yet: `unchanged` or `modified` by color; with none left it is `added`.
pub open spec fn match_news(olds: Seq<Swatch>, news: Seq<Swatch>) -> (Seq<bool>, Seq<DiffView>)
    decreases news.len(),
{
    if news.len() == 0 {
        (Seq::new(olds.len(), |i: int| false), seq![])
    } else {
        let (used, out) = match_news(olds, news.drop_last());
        let ns = news.last();
        let a = rgb_hex(ns.rgb);
        match first_unused(olds, used, ns.name@, 0) {
            Some(i) => {
                let b = rgb_hex(olds[i].rgb);
                (
                    used.update(i, true),
                    out.push(
                        (
                            ns.name@,
                            Some(b),
                            Some(a),
                            if b == a {
                                "unchanged"@
                            } else {
                                "modified"@
                            },
                        ),
                    ),
                )
            },
            None => (used, out.push((ns.name@, None, Some(a), "added"@))),
        }
    }
}

/// The old swatches among the first `n` left unmatched, in order, as `removed` entries.
pub open spec fn removed_entries(olds: Seq<Swatch>, used: Seq<bool>, n: int) -> Seq<DiffView>
    decreases n,
{
    if n <= 0 {
        seq![]
    } else {
        let prev = removed_entries(olds, used, n - 1);
        if !used[n - 1] {
            prev.push((olds[n - 1].name@, Some(rgb_hex(olds[n - 1].rgb)), None, "removed"@))
        } else {
            prev
        }
    }
}

/// The swatches of an optional palette.
pub open spec fn swatches_of(p: Option<&Palette>) -> Seq<Swatch> {
    match p {
        Some(x) => x.swatches@,
        None => seq![],
    }
}

/// The diff's entries: the new swatches in order, then the unmatched old ones.
pub open spec fn diff_entries(old: Option<&Palette>, new: Option<&Palette>) -> Seq<DiffView> {
    let olds = swatches_of(old);
    let (used, out) = match_news(olds, swatches_of(new));
    out + removed_entries(olds, used, olds.len() as int)
}

/// Whether a diff entry's change label agrees with its colours: a swatch found on both sides is
/// `unchanged` exactly when its before and after colours are equal and `modified` otherwise; one
/// found only in the new palette is `added`, one found only in the old is `removed`.
pub open spec fn change_fits(e: DiffView) -> bool {
    match (e.1, e.2) {
        (Some(b), Some(a)) => if b == a {
            e.3 == "unchanged"@
        } else {
            e.3 == "modified"@
        },
        (None, Some(_)) => e.3 == "added"@,
        (Some(_), None) => e.3 == "removed"@,
        (None, None) => false,
    }
}

/// Entry `e` is what new swatch `ns` is given against `olds`: its name, its colour after, and a
/// colour before only from an old swatch of the same name.
pub open spec fn entry_of(olds: Seq<Swatch>, ns: Swatch, e: DiffView) -> bool {
    &&& e.0 == ns.name@
    &&& e.2 == Some(rgb_hex(ns.rgb))
    &&& e.1 matches Some(b) ==> exists|i: int| 0 <= i < olds.len() && olds[i].name@ == ns.name@ && b == rgb_hex(
        #[trigger] olds[i].rgb,
    )
}

proof fn lemma_match_news_fit(olds: Seq<Swatch>, news: Seq<Swatch>)
    ensures
        forall|k: int| 0 <= k < match_news(olds, news).1.len() ==> change_fits(#[trigger] match_news(olds, news).1[k]),
        match_news(olds, news).0.len() == olds.len(),
        match_news(olds, news).1.len() == news.len(),
        forall|k: int| 0 <= k < news.len() ==> entry_of(olds, news[k], #[trigger] match_news(olds, news).1[k]),
    decreases news.len(),
{
    if news.len() > 0 {
        lemma_match_news_fit(olds, news.drop_last());
        let (used, out) = match_news(olds, news.drop_last());
        lemma_first_unused(olds, used, news.last().name@, 0);
        let r = match_news(olds, news).1;
        assert forall|k: int| 0 <= k < news.len() implies entry_of(olds, news[k], #[trigger] r[k]) by {
            if k < news.len() - 1 {
                assert(news[k] == news.drop_last()[k]);
                assert(r[k] == out[k]);
            } else {
                match first_unused(olds, used, news.last().name@, 0) {
                    Some(i) => {
                        assert(olds[i].name@ == news[k].name@);
                    },
                    None => {},
                }
            }
        }
    }
}

proof fn lemma_removed_fit(olds: Seq<Swatch>, used: Seq<bool>, n: int)
    ensures
        forall|k: int| 0 <= k < removed_entries(olds, used, n).len() ==> change_fits(#[trigger] removed_entries(olds, used, n)[k]),
    decreases n,
{
    if n > 0 {
        lemma_removed_fit(olds, used, n - 1);
        let prev = removed_entries(olds, used, n - 1);
        let r = removed_entries(olds, used, n);
        assert forall|k: int| 0 <= k < r.len() implies change_fits(#[trigger] r[k]) by {
            if k < prev.len() {
                assert(r[k] == prev[k]);
            }
        }
    }
}

/// Every entry of a palette diff carries the change its colours call for: a swatch on both sides
/// is `unchanged` exactly when its before and after colours are equal, else `modified`; a swatch
/// only in the new palette is `added` and one only in the old is `removed`. The first entries are
/// the new swatches in order, each with its own colour after and, before, the colour of an old
/// swatch of the same name.
pub proof fn lemma_diff_changes_fit(old: Option<&Palette>, new: Option<&Palette>)
    ensures
        forall|k: int| 0 <= k < diff_entries(old, new).len() ==> change_fits(#[trigger] diff_entries(old, new)[k]),
        diff_entries(old, new).len() >= swatches_of(new).len(),
        forall|k: int|
            0 <= k < swatches_of(new).len() ==> entry_of(swatches_of(old), swatches_of(new)[k], #[trigger] diff_entries(old, new)[k]),
{
    let olds = swatches_of(old);
    lemma_match_news_fit(olds, swatches_of(new));
    let (used, out) = match_news(olds, swatches_of(new));
    lemma_removed_fit(olds, used, olds.len() as int);
    let rem = removed_entries(olds, used, olds.len() as int);
    assert forall|k: int| 0 <= k < diff_entries(old, new).len() implies change_fits(#[trigger] diff_entries(old, new)[k]) by {
        if k < out.len() {
            assert(diff_entries(old, new)[k] == out[k]);
        } else {
            assert(diff_entries(old, new)[k] == rem[k - out.len()]);
        }
    }
    assert forall|k: int| 0 <= k < swatches_of(new).len() implies entry_of(
        olds,
        swatches_of(new)[k],
        #[trigger] diff_entries(old, new)[k],
    ) by {
        assert(diff_entries(old, new)[k] == out[k]);
    }
}

/// The diff's column count: the new palette's when it records one, else the old one's.
pub open spec fn diff_columns(old: Option<&Palette>, new: Option<&Palette>) -> u32 {
    match new {
        Some(p) if p.columns > 0 => p.columns,
        _ => match old {
            Some(p) => p.columns,
            None => 0,
        },
    }
}

proof fn lemma_first_unused(olds: Seq<Swatch>, used: Seq<bool>, name: Seq<char>, i: int)
    requires
        0 <= i,
    ensures
        first_unused(olds, used, name, i) matches Some(k) ==> i <= k < olds.len() && !used[k]
            && olds[k].name@ == name,
    decreases olds.len() - i,
{
    if i < olds.len() && !(!used[i] && olds[i].name@ == name) {
        lemma_first_unused(olds, used, name, i + 1);
    }
}

/// The first old swatch at or after `i` not yet matched and named `name`.
fn find_unused(olds: &Vec<Swatch>, used: &Vec<bool>, name: &str) -> (r: Option<usize>)
    requires
        used@.len() == olds@.len(),
    ensures
        match r {
            Some(k) => first_unused(olds@, used@, name@, 0) == Some(k as int) && k < olds@.len(),
            None => first_unused(olds@, used@, name@, 0) is None,
        },
{
    let mut i: usize = 0;
    while i < olds.len()
        invariant
            i <= olds.len(),
            used@.len() == olds@.len(),
            first_unused(olds@, used@, name@, 0) == first_unused(olds@, used@, name@, i as int),
        decreases olds.len() - i,
    {
        if !used[i] && str_eq(olds[i].name.as_str(), name) {
            return Some(i);
        }
        i = i + 1;
    }
    None
}

/// Diff two parsed palettes (either side may be absent: an add or a delete). Swatches match by
/// name, first unmatched first (names can repeat); old swatches left over are `removed`,
/// after every new one.
pub fn diff(old: Option<&Palette>, new: Option<&Palette>) -> (d: PaletteDiff)
    ensures
        d.columns == diff_columns(old, new),
        d.swatches@.map_values(|x: SwatchDiff| x@) == diff_entries(old, new),
{
    let empty: Vec<Swatch> = Vec::new();
    let olds: &Vec<Swatch> = match old {
        Some(p) => &p.swatches,
        None => &empty,
    };
    let news: &Vec<Swatch> = match new {
        Some(p) => &p.swatches,
        None => &empty,
    };
    let mut used: Vec<bool> = Vec::new();
    let mut k: usize = 0;
    while k < olds.len()
        invariant
            k <= olds.len(),
            used@ == Seq::new(k as nat, |i: int| false),
        decreases olds.len() - k,
    {
        used.push(false);
        assert(used@ =~= Seq::new((k + 1) as nat, |i: int| false));
        k = k + 1;
    }
    let mut swatches: Vec<SwatchDiff> = Vec::new();
    let mut j: usize = 0;
    assert(news@.take(0) =~= Seq::<Swatch>::empty());
    while j < news.len()
        invariant
            j <= news.len(),
            olds@ == swatches_of(old),
            news@ == swatches_of(new),
            (used@, swatches@.map_values(|x: SwatchDiff| x@)) == match_news(olds@, news@.take(j as int)),
            used@.len() == olds@.len(),
        decreases news.len() - j,
    {
        let ns = &news[j];
        let ghost pre = news@.take(j as int);
        assert(news@.take(j + 1).drop_last() =~= pre);
        assert(news@.take(j + 1).last() == *ns);
        let a = hex(ns.rgb);
        let ghost before = swatches@.map_values(|x: SwatchDiff| x@);
        match find_unused(olds, &used, ns.name.as_str()) {
            Some(i) => {
                proof {
                    lemma_first_unused(olds@, used@, ns.name@, 0);
                }
                used.set(i, true);
                let b = hex(olds[i].rgb);
                let change = if str_eq(b.as_str(), a.as_str()) {
                    String::from_str("unchanged")
                } else {
                    String::from_str("modified")
                };
                swatches.push(SwatchDiff { name: ns.name.clone(), before: Some(b), after: Some(a), change });
            },
            None => {
                swatches.push(
                    SwatchDiff {
                        name: ns.name.clone(),
                        before: None,
                        after: Some(a),
                        change: String::from_str("added"),
                    },
                );
            },
        }
        assert(swatches@.map_values(|x: SwatchDiff| x@) =~= before.push(swatches@.last()@));
        j = j + 1;
    }
    assert(news@.take(news.len() as int) =~= news@);
    let ghost matched = swatches@.map_values(|x: SwatchDiff| x@);
    let mut i: usize = 0;
    while i < olds.len()
        invariant
            i <= olds.len(),
            used@.len() == olds@.len(),
            swatches@.map_values(|x: SwatchDiff| x@) == matched + removed_entries(olds@, used@, i as int),
        decreases olds.len() - i,
    {
        let ghost before = swatches@.map_values(|x: SwatchDiff| x@);
        if !used[i] {
            let os = &olds[i];
            swatches.push(
                SwatchDiff {
                    name: os.name.clone(),
                    before: Some(hex(os.rgb)),
                    after: None,
                    change: String::from_str("removed"),
                },
            );
            assert(swatches@.map_values(|x: SwatchDiff| x@) =~= before.push(swatches@.last()@));
        }
        i = i + 1;
    }
    let columns = match new {
        Some(p) if p.columns > 0 => p.columns,
        _ => match old {
            Some(p) => p.columns,
            None => 0,
        },
    };
    PaletteDiff { columns, swatches }
}


/// Big-endian 16-bit value at `p`.
pub open spec fn be16(b: Seq<u8>, p: int) -> int {
    b[p] * 256 + b[p + 1]
}

/// Big-endian 32-bit value at `p`.
pub open spec fn be32(b: Seq<u8>, p: int) -> int {
    be16(b, p) * 65536 + be16(b, p + 2)
}

/// A cursor over big-endian binary data.
pub struct Reader<'a> {
    pub b: &'a [u8],
    pub p: usize,
}

impl<'a> Reader<'a> {
    pub open spec fn wf(&self) -> bool {
        self.p <= self.b@.len()
    }

    pub fn new(b: &'a [u8]) -> (r: Reader<'a>)
        ensures
            r.b == b,
            r.p == 0,
            r.wf(),
    {
        Reader { b, p: 0 }
    }

    /// The next `n` bytes, `None` (and nothing consumed) when fewer remain.
    pub fn take(&mut self, n: usize) -> (r: Option<&'a [u8]>)
        requires
            old(self).wf(),
        ensures
            final(self).wf(),
            final(self).b == old(self).b,
            if old(self).p + n <= old(self).b@.len() {
                r matches Some(s) && s@ == old(self).b@.subrange(
                    old(self).p as int,
                    old(self).p + n,
                ) && final(self).p == old(self).p + n
            } else {
                r is None && final(self).p == old(self).p
            },
    {
        if n > self.b.len() - self.p {
            return None;
        }
        let s = &self.b[self.p..self.p + n];
        self.p = self.p + n;
        Some(s)
    }

    /// The next big-endian `u16`.
    pub fn u16(&mut self) -> (r: Option<u16>)
        requires
            old(self).wf(),
        ensures
            final(self).wf(),
            final(self).b == old(self).b,
            if old(self).p + 2 <= old(self).b@.len() {
                r == Some(be16(old(self).b@, old(self).p as int) as u16) && final(self).p == old(
                    self,
                ).p + 2
            } else {
                r is None && final(self).p == old(self).p
            },
    {
        match self.take(2) {
            Some(s) => Some((s[0] as u16) * 256 + (s[1] as u16)),
            None => None,
        }
    }

    /// The next big-endian `u32`.
    pub fn u32(&mut self) -> (r: Option<u32>)
        requires
            old(self).wf(),
        ensures
            final(self).wf(),
            final(self).b == old(self).b,
            if old(self).p + 4 <= old(self).b@.len() {
                r == Some(be32(old(self).b@, old(self).p as int) as u32) && final(self).p == old(
                    self,
                ).p + 4
            } else {
                r is None && final(self).p == old(self).p
            },
    {
        match self.take(4) {
            Some(s) => Some(
                ((s[0] as u32) * 256 + (s[1] as u32)) * 65536 + ((s[2] as u32) * 256 + (
                s[3] as u32)),
            ),
            None => None,
        }
    }

    /// How many bytes are left.
    pub fn remaining(&self) -> (n: usize)
        requires
            self.wf(),
        ensures
            n == self.b@.len() - self.p,
    {
        self.b.len() - self.p
    }
}


/// The UTF-16 code units of big-endian byte pairs (an odd last byte is ignored).
pub open spec fn units_be(b: Seq<u8>) -> Seq<u16> {
    Seq::new((b.len() / 2) as nat, |i: int| be16(b, 2 * i) as u16)
}

/// The units before the first zero.
pub open spec fn until_nul(u: Seq<u16>) -> Seq<u16>
    decreases u.len(),
{
    if u.len() == 0 || u[0] == 0 {
        seq![]
    } else {
        seq![u[0]] + until_nul(u.skip(1))
    }
}

/// Lossy UTF-16 decoding: a high surrogate followed by a low one gives their character, any
/// other surrogate gives U+FFFD.
pub open spec fn utf16_lossy(u: Seq<u16>) -> Seq<char>
    decreases u.len(),
{
    if u.len() == 0 {
        seq![]
    } else if 0xD800 <= u[0] < 0xDC00 && u.len() >= 2 && 0xDC00 <= u[1] < 0xE000 {
        seq![(0x10000 + (u[0] - 0xD800) * 0x400 + (u[1] - 0xDC00)) as char] + utf16_lossy(
            u.skip(2),
        )
    } else if 0xD800 <= u[0] < 0xE000 {
        seq!['\u{FFFD}'] + utf16_lossy(u.skip(1))
    } else {
        seq![u[0] as char] + utf16_lossy(u.skip(1))
    }
}

/// The units of `b` up to the first zero.
fn units_until_nul(b: &[u8]) -> (u: Vec<u16>)
    ensures
        u@ == until_nul(units_be(b@)),
{
    let mut u: Vec<u16> = Vec::new();
    let blen = b.len();
    let n = blen / 2;
    let mut i: usize = 0;
    let ghost all = units_be(b@);
    assert(all.skip(0) =~= all);
    while i < n
        invariant
            i <= n == b@.len() / 2,
            blen == b@.len(),
            all == units_be(b@),
            until_nul(all) == u@ + until_nul(all.skip(i as int)),
        decreases n - i,
    {
        assert(2 * i + 1 < b@.len());
        let hi: u16 = b[2 * i] as u16;
        let lo: u16 = b[2 * i + 1] as u16;
        assert(hi * 256 + lo <= 65535);
        let v: u16 = hi * 256 + lo;
        assert(all.skip(i as int)[0] == v);
        if v == 0 {
            assert(until_nul(all.skip(i as int)) =~= Seq::<u16>::empty());
            assert(u@ + Seq::<u16>::empty() =~= u@);
            return u;
        }
        u.push(v);
        assert(all.skip(i as int).skip(1) =~= all.skip(i + 1));
        assert(u@ + until_nul(all.skip(i + 1)) =~= u@.drop_last() + (seq![v] + until_nul(all.skip(i + 1))));
        i = i + 1;
    }
    assert(all.skip(n as int) =~= Seq::<u16>::empty());
    assert(u@ + Seq::<u16>::empty() =~= u@);
    u
}

/// UTF-16BE decode, up to the first zero unit, replacing undecodable units by U+FFFD.
pub fn utf16be_string(units: &[u8]) -> (s: String)
    ensures
        s@ == utf16_lossy(until_nul(units_be(units@))),
{
    let u = units_until_nul(units);
    let mut cs: Vec<char> = Vec::new();
    let mut i: usize = 0;
    assert(u@.skip(0) =~= u@);
    while i < u.len()
        invariant
            i <= u.len(),
            utf16_lossy(u@) == cs@ + utf16_lossy(u@.skip(i as int)),
        decreases u.len() - i,
    {
        let a = u[i];
        let ghost rest = u@.skip(i as int);
        assert(rest[0] == a);
        if 0xD800 <= a && a < 0xDC00 && i + 1 < u.len() && 0xDC00 <= u[i + 1] && u[i + 1] < 0xE000 {
            let v: u32 = 0x10000 + ((a - 0xD800) as u32) * 0x400 + ((u[i + 1] - 0xDC00) as u32);
            assert(rest[1] == u@[i + 1]);
            let c = match crate::text::char_from_u32(v) {
                Some(c) => c,
                None => '\u{FFFD}',
            };
            cs.push(c);
            assert(rest.skip(2) =~= u@.skip(i + 2));
            assert(cs@ + utf16_lossy(u@.skip(i + 2)) =~= cs@.drop_last() + (seq![c] + utf16_lossy(u@.skip(i + 2))));
            i = i + 2;
        } else {
            let c = if 0xD800 <= a && a < 0xE000 {
                '\u{FFFD}'
            } else {
                match crate::text::char_from_u32(a as u32) {
                    Some(c) => c,
                    None => '\u{FFFD}',
                }
            };
            cs.push(c);
            assert(rest.skip(1) =~= u@.skip(i + 1));
            assert(cs@ + utf16_lossy(u@.skip(i + 1)) =~= cs@.drop_last() + (seq![c] + utf16_lossy(u@.skip(i + 1))));
            i = i + 1;
        }
    }
    assert(u@.skip(u.len() as int) =~= Seq::<u16>::empty());
    assert(cs@ + Seq::<char>::empty() =~= cs@);
    crate::text::string_of_chars(cs.as_slice())
}


/// A swatch as plain values: `(name, rgb)`.
pub type SwatchView = (Seq<char>, (u8, u8, u8));

impl View for Swatch {
    type V = SwatchView;

    open spec fn view(&self) -> SwatchView {
        (self.name@, self.rgb)
    }
}

/// A palette as plain values: `(columns, swatches, pending)`.
pub type PaletteView = (u32, Seq<SwatchView>, Seq<Pending>);

impl View for Palette {
    type V = PaletteView;

    open spec fn view(&self) -> PaletteView {
        (self.columns, self.swatches@.map_values(|s: Swatch| s@), self.pending@)
    }
}

/// An `.aco` 16-bit component (0..65535) as 8 bits, rounded: `round(v / 257)`.
pub open spec fn aco8(v: u16) -> u8 {
    ((v + 128) / 257) as u8
}

/// The sRGB of an `.aco` color in `space`, `None` for CMYK (space 2), which needs
/// floating-point conversion: RGB (space 0) scales each 16-bit component; grayscale (space 8)
/// maps 0..10000 to 0..255, rounded and clamped; other spaces become mid-gray.
pub open spec fn aco_rgb_spec(space: u16, c: (u16, u16, u16, u16)) -> Option<(u8, u8, u8)> {
    if space == 0 {
        Some((aco8(c.0), aco8(c.1), aco8(c.2)))
    } else if space == 8 {
        let g = (c.0 * 51 + 1000) / 2000;
        let g8 = if g > 255 {
            255u8
        } else {
            g as u8
        };
        Some((g8, g8, g8))
    } else if space == 2 {
        None
    } else {
        Some((128, 128, 128))
    }
}

/// The sRGB of an `.aco` color, `None` for CMYK (left to the caller).
pub fn aco_rgb(space: u16, c: (u16, u16, u16, u16)) -> (r: Option<(u8, u8, u8)>)
    ensures
        r == aco_rgb_spec(space, c),
{
    if space == 0 {
        let r = ((c.0 as u32 + 128) / 257) as u8;
        let g = ((c.1 as u32 + 128) / 257) as u8;
        let b = ((c.2 as u32 + 128) / 257) as u8;
        Some((r, g, b))
    } else if space == 8 {
        let g: u32 = (c.0 as u32 * 51 + 1000) / 2000;
        let g8: u8 = if g > 255 {
            255
        } else {
            g as u8
        };
        Some((g8, g8, g8))
    } else if space == 2 {
        None
    } else {
        Some((128, 128, 128))
    }
}

/// The `.aco` version-2 names: `k` records from `p`, each a space and four components, a
/// 32-bit unit count and that many UTF-16 units (a NUL included).
pub open spec fn v2_records(b: Seq<u8>, p: int, k: nat) -> Option<Seq<Seq<char>>>
    decreases k,
{
    if k == 0 {
        Some(seq![])
    } else if p + 14 > b.len() {
        None
    } else {
        let l = be32(b, p + 10);
        if 2 * l > usize::MAX || p + 14 + 2 * l > b.len() {
            None
        } else {
            match v2_records(b, p + 14 + 2 * l, (k - 1) as nat) {
                None => None,
                Some(rest) => Some(
                    seq![utf16_lossy(until_nul(units_be(b.subrange(p + 14, p + 14 + 2 * l))))]
                        + rest,
                ),
            }
        }
    }
}

/// The names of the optional version-2 section at `p`, kept for the first `count` colors;
/// `None` when there is no such section or it does not read.
pub open spec fn v2_names(b: Seq<u8>, p: int, count: nat) -> Option<Seq<Seq<char>>> {
    if p >= b.len() || p + 4 > b.len() || be16(b, p) != 2 {
        None
    } else {
        let v2 = be16(b, p + 2) as nat;
        match v2_records(b, p + 4, v2) {
            None => None,
            Some(names) => Some(names.take(if count < v2 { count as int } else { v2 as int })),
        }
    }
}

/// The `.aco` names section, read at the reader's position.
pub fn parse_aco_v2_names(r: &mut Reader, count: usize) -> (names: Option<Vec<String>>)
    requires
        old(r).wf(),
    ensures
        final(r).wf(),
        final(r).b == old(r).b,
        match v2_names(old(r).b@, old(r).p as int, count as nat) {
            None => names is None,
            Some(ns) => names matches Some(v) && v@.map_values(|x: String| x@) == ns,
        },
{
    let ghost b = r.b@;
    let ghost p0 = r.p as int;
    if r.remaining() == 0 {
        return None;
    }
    match r.u16() {
        Some(2) => {},
        _ => return None,
    }
    let v2_count = match r.u16() {
        Some(v) => v as usize,
        None => return None,
    };
    let n = if count < v2_count {
        count
    } else {
        v2_count
    };
    let mut names: Vec<String> = Vec::new();
    let mut i: usize = 0;
    while i < v2_count
        invariant
            r.wf(),
            r.b@ == b,
            r.b == old(r).b,
            b == old(r).b@,
            p0 == old(r).p,
            p0 < b.len(),
            be16(b, p0) == 2,
            names@.len() == i,
            i <= v2_count,
            v2_count == be16(b, p0 + 2),
            p0 + 4 <= b.len(),
            v2_records(b, p0 + 4, v2_count as nat) == match v2_records(b, r.p as int, (v2_count - i) as nat) {
                None => None,
                Some(rest) => Some(names@.map_values(|x: String| x@) + rest),
            },
        decreases v2_count - i,
    {
        let ghost before = names@.map_values(|x: String| x@);
        let ghost p = r.p as int;
        if r.remaining() < 14 {
            return None;
        }
        let _space = r.u16();
        let _c0 = r.u16();
        let _c1 = r.u16();
        let _c2 = r.u16();
        let _c3 = r.u16();
        let len = match r.u32() {
            Some(v) => v as usize,
            None => return None,
        };
        if len > usize::MAX / 2 {
            return None;
        }
        let units = match r.take(len * 2) {
            Some(u) => u,
            None => return None,
        };
        names.push(utf16be_string(units));
        proof {
            assert(names@.map_values(|x: String| x@) =~= before.push(names@.last()@));
            match v2_records(b, r.p as int, (v2_count - i - 1) as nat) {
                Some(rest) => {
                    assert(before.push(names@.last()@) + rest =~= before + (seq![names@.last()@] + rest));
                },
                None => {},
            }
        }
        i = i + 1;
    }
    let ghost all = names@.map_values(|x: String| x@);
    assert(all + Seq::<Seq<char>>::empty() =~= all);
    names.truncate(n);
    assert(names@.map_values(|x: String| x@) =~= all.take(n as int));
    Some(names)
}


/// The color space of the `i`-th `.aco` record.
pub open spec fn aco_space(b: Seq<u8>, i: int) -> u16 {
    be16(b, 4 + 10 * i) as u16
}

/// The four components of the `i`-th `.aco` record.
pub open spec fn aco_comps(b: Seq<u8>, i: int) -> (u16, u16, u16, u16) {
    (
        be16(b, 6 + 10 * i) as u16,
        be16(b, 8 + 10 * i) as u16,
        be16(b, 10 + 10 * i) as u16,
        be16(b, 12 + 10 * i) as u16,
    )
}

/// Whether the `i`-th name is given and not empty.
pub open spec fn named(names: Seq<Seq<char>>, i: int) -> bool {
    i < names.len() && names[i].len() > 0
}

/// A swatch's name: the one given, else the `#RRGGBB` of its color (left empty while the
/// color is pending).
pub open spec fn swatch_name(names: Seq<Seq<char>>, i: int, rgb: Option<(u8, u8, u8)>) -> Seq<char> {
    if named(names, i) {
        names[i]
    } else {
        match rgb {
            Some(c) => rgb_hex(c),
            None => seq![],
        }
    }
}

/// The pending colors among the first `n` `.aco` records.
pub open spec fn aco_pending(b: Seq<u8>, names: Seq<Seq<char>>, n: int) -> Seq<Pending>
    decreases n,
{
    if n <= 0 {
        seq![]
    } else {
        let prev = aco_pending(b, names, n - 1);
        let i = n - 1;
        if aco_space(b, i) == 2 {
            let c = aco_comps(b, i);
            prev.push(
                Pending { index: i as usize, named: named(names, i), color: FloatColor::AcoCmyk(c.0, c.1, c.2, c.3) },
            )
        } else {
            prev
        }
    }
}

/// What an `.aco` file parses to: a version-1 section of `count` colors (none is no palette),
/// named by the optional version-2 section.
pub open spec fn parse_aco_spec(b: Seq<u8>) -> Option<PaletteView> {
    if b.len() < 4 || be16(b, 0) != 1 {
        None
    } else {
        let count = be16(b, 2);
        if 4 + 10 * count > b.len() || count == 0 {
            None
        } else {
            let names = match v2_names(b, 4 + 10 * count, count as nat) {
                Some(n) => n,
                None => seq![],
            };
            let sw = Seq::new(
                count as nat,
                |i: int|
                    {
                        let rgb = aco_rgb_spec(aco_space(b, i), aco_comps(b, i));
                        (
                            swatch_name(names, i, rgb),
                            match rgb {
                                Some(c) => c,
                                None => (0u8, 0u8, 0u8),
                            },
                        )
                    },
            );
            Some((0u32, sw, aco_pending(b, names, count)))
        }
    }
}

/// Parse an Adobe `.aco` palette.
pub fn parse_aco(bytes: &[u8]) -> (p: Option<Palette>)
    ensures
        match parse_aco_spec(bytes@) {
            None => p is None,
            Some(v) => p matches Some(x) && x@ == v,
        },
{
    let ghost b = bytes@;
    let mut r = Reader::new(bytes);
    match r.u16() {
        Some(1) => {},
        _ => return None,
    }
    let count = match r.u16() {
        Some(c) => c as usize,
        None => return None,
    };
    let mut colors: Vec<(u16, (u16, u16, u16, u16))> = Vec::new();
    let mut k: usize = 0;
    while k < count
        invariant
            r.wf(),
            r.b@ == b,
            b == bytes@,
            b.len() >= 4,
            be16(b, 0) == 1,
            count == be16(b, 2),
            k <= count,
            r.p == 4 + 10 * k,
            colors@.len() == k,
            forall|i: int| 0 <= i < k ==> (#[trigger] colors@[i]) == (aco_space(b, i), aco_comps(b, i)),
        decreases count - k,
    {
        if r.remaining() < 10 {
            return None;
        }
        let space = r.u16().unwrap();
        let c0 = r.u16().unwrap();
        let c1 = r.u16().unwrap();
        let c2 = r.u16().unwrap();
        let c3 = r.u16().unwrap();
        colors.push((space, (c0, c1, c2, c3)));
        k = k + 1;
    }
    let names: Vec<String> = match parse_aco_v2_names(&mut r, count) {
        Some(n) => n,
        None => Vec::new(),
    };
    let ghost nv = names@.map_values(|x: String| x@);
    let mut swatches: Vec<Swatch> = Vec::new();
    let mut pending: Vec<Pending> = Vec::new();
    let mut i: usize = 0;
    while i < count
        invariant
            i <= count == colors@.len(),
            b == bytes@,
            b.len() >= 4,
            be16(b, 0) == 1,
            4 + 10 * count <= b.len(),
            count == be16(b, 2),
            nv == match v2_names(b, 4 + 10 * count, count as nat) {
                Some(n) => n,
                None => Seq::<Seq<char>>::empty(),
            },
            forall|j: int| 0 <= j < count ==> (#[trigger] colors@[j]) == (aco_space(b, j), aco_comps(b, j)),
            nv == names@.map_values(|x: String| x@),
            swatches@.len() == i,
            forall|j: int| 0 <= j < i ==> (#[trigger] swatches@[j])@ == ({
                let rgb = aco_rgb_spec(aco_space(b, j), aco_comps(b, j));
                (swatch_name(nv, j, rgb), match rgb {
                    Some(c) => c,
                    None => (0u8, 0u8, 0u8),
                })
            }),
            pending@ == aco_pending(b, nv, i as int),
        decreases count - i,
    {
        let (space, comps) = colors[i];
        let rgb = aco_rgb(space, comps);
        let given = i < names.len() && !names[i].as_str().is_empty();
        proof {
            if i < names@.len() {
                assert(nv[i as int] == names@[i as int]@);
            }
            assert(given == named(nv, i as int));
        }
        let name = if given {
            names[i].clone()
        } else {
            match rgb {
                Some(c) => hex(c),
                None => String::new(),
            }
        };
        let shown = match rgb {
            Some(c) => c,
            None => (0u8, 0u8, 0u8),
        };
        if space == 2 {
            pending.push(Pending { index: i, named: given, color: FloatColor::AcoCmyk(comps.0, comps.1, comps.2, comps.3) });
        }
        swatches.push(Swatch { name, rgb: shown });
        i = i + 1;
    }
    if count == 0 {
        return None;
    }
    let p = Palette { columns: 0, swatches, pending };
    let ghost want = parse_aco_spec(b)->0;
    assert(p@.1 =~= want.1);
    Some(p)
}


/// `2^e`.
pub open spec fn two_pow(e: nat) -> nat
    decreases e,
{
    if e == 0 {
        1
    } else {
        2 * two_pow((e - 1) as nat)
    }
}

proof fn lemma_two_pow_grows(a: nat, b: nat)
    requires
        a <= b,
    ensures
        two_pow(a) <= two_pow(b),
        two_pow(a) >= 1,
    decreases b,
{
    if b > a {
        lemma_two_pow_grows(a, (b - 1) as nat);
    } else if a > 0 {
        lemma_two_pow_grows((a - 1) as nat, (a - 1) as nat);
    }
}

/// A 0..1 component given as IEEE-754 single-precision bits, as 8 bits: the value clamped to
/// `[0, 1]`, times 255, rounded half away from zero. NaN and negatives give 0, `+inf` 255. For a
/// finite value `m / 2^s` below 1 this is `floor(m * 255 / 2^s + 1/2)`.
pub open spec fn unit8_bits(bits: u32) -> u8 {
    let neg = bits >= 0x8000_0000;
    let e = (bits / 0x80_0000) % 256;
    let f = bits % 0x80_0000;
    if e == 255 {
        if f == 0 && !neg {
            255
        } else {
            0
        }
    } else if neg {
        0
    } else if e >= 127 {
        255
    } else {
        let m: int = if e > 0 {
            f + 0x80_0000
        } else {
            f as int
        };
        let s: int = if e > 0 {
            150 - e
        } else {
            149
        };
        ((2 * m * 255 + two_pow(s as nat)) / (two_pow((s + 1) as nat) as int)) as u8
    }
}

proof fn lemma_two_pow_marks()
    ensures
        two_pow(24) == 0x100_0000,
        two_pow(33) == 0x2_0000_0000,
{
    reveal_with_fuel(two_pow, 34);
}

/// `2^s` for `s < 34`.
fn pow_of_two(s: u32) -> (d: u64)
    requires
        s < 34,
    ensures
        d == two_pow(s as nat),
{
    let mut d: u64 = 1;
    let mut k: u32 = 0;
    while k < s
        invariant
            k <= s < 34,
            d == two_pow(k as nat),
            d <= 0x4_0000_0000,
        decreases s - k,
    {
        proof {
            lemma_two_pow_grows((k + 1) as nat, 33);
            lemma_two_pow_marks();
        }
        d = d * 2;
        k = k + 1;
    }
    d
}

/// The 8-bit value of a 0..1 component given as single-precision bits.
pub fn unit8(bits: u32) -> (r: u8)
    ensures
        r == unit8_bits(bits),
{
    let neg = bits >= 0x8000_0000;
    let e = (bits / 0x80_0000) % 256;
    let f = bits % 0x80_0000;
    if e == 255 {
        if f == 0 && !neg {
            255
        } else {
            0
        }
    } else if neg {
        0
    } else if e >= 127 {
        255
    } else {
        let m: u64 = if e > 0 {
            f as u64 + 0x80_0000
        } else {
            f as u64
        };
        let s: u32 = if e > 0 {
            150 - e
        } else {
            149
        };
        if s >= 34 {
            proof {
                lemma_two_pow_grows(33, s as nat);
                lemma_two_pow_marks();
                assert(two_pow((s + 1) as nat) == 2 * two_pow(s as nat));
                assert(2 * m * 255 + two_pow(s as nat) < two_pow((s + 1) as nat));
                vstd::arithmetic::div_mod::lemma_basic_div(
                    2 * m * 255 + two_pow(s as nat),
                    two_pow((s + 1) as nat) as int,
                );
            }
            0
        } else {
            let d = pow_of_two(s);
            proof {
                lemma_two_pow_grows(s as nat, 33);
                lemma_two_pow_marks();
                assert(d <= 0x2_0000_0000);
                assert(m < 0x100_0000);
                lemma_two_pow_grows(24, s as nat);
                lemma_two_pow_marks();
                assert(m < d);
                assert(two_pow((s + 1) as nat) == 2 * d);
                assert(2 * m * 255 + d < 2 * d * 256) by (nonlinear_arith)
                    requires
                        m < d,
                ;
                assert((2 * m * 255 + d) / (2 * d) < 256) by (nonlinear_arith)
                    requires
                        2 * m * 255 + d < 2 * d * 256,
                        d >= 1,
                ;
            }
            ((2 * m * 255 + d) / (2 * d)) as u8
        }
    }
}


/// Whether the four bytes at `q` spell the model tag `t`.
pub open spec fn tag_at(b: Seq<u8>, q: int, t: Seq<u8>) -> bool {
    b.subrange(q, q + 4) == t
}

/// An `.ase` color block: a name of `n` UTF-16 units (NUL included), a model tag, and the
/// model's single-precision components. Gives the swatch (its name as given; for an RGB or
/// gray color with no name, the `#RRGGBB`) and, for CMYK and Lab, the color left to the caller.
pub open spec fn ase_color_spec(body: Seq<u8>) -> Option<(SwatchView, Option<FloatColor>)> {
    if body.len() < 2 {
        None
    } else {
        let n = be16(body, 0);
        let q = 2 + 2 * n;
        if q + 4 > body.len() {
            None
        } else {
            let name = utf16_lossy(until_nul(units_be(body.subrange(2, q))));
            let named = |rgb: (u8, u8, u8)| if name.len() > 0 { name } else { rgb_hex(rgb) };
            if tag_at(body, q, seq![82u8, 71, 66, 32]) {
                if q + 16 > body.len() {
                    None
                } else {
                    let rgb = (
                        unit8_bits(be32(body, q + 4) as u32),
                        unit8_bits(be32(body, q + 8) as u32),
                        unit8_bits(be32(body, q + 12) as u32),
                    );
                    Some(((named(rgb), rgb), None))
                }
            } else if tag_at(body, q, seq![67u8, 77, 89, 75]) {
                if q + 20 > body.len() {
                    None
                } else {
                    Some(
                        (
                            (name, (0u8, 0u8, 0u8)),
                            Some(
                                FloatColor::AseCmyk(
                                    be32(body, q + 4) as u32,
                                    be32(body, q + 8) as u32,
                                    be32(body, q + 12) as u32,
                                    be32(body, q + 16) as u32,
                                ),
                            ),
                        ),
                    )
                }
            } else if tag_at(body, q, seq![71u8, 114, 97, 121]) {
                if q + 8 > body.len() {
                    None
                } else {
                    let g = unit8_bits(be32(body, q + 4) as u32);
                    Some(((named((g, g, g)), (g, g, g)), None))
                }
            } else if tag_at(body, q, seq![76u8, 65, 66, 32]) {
                if q + 16 > body.len() {
                    None
                } else {
                    Some(
                        (
                            (name, (0u8, 0u8, 0u8)),
                            Some(
                                FloatColor::AseLab(
                                    be32(body, q + 4) as u32,
                                    be32(body, q + 8) as u32,
                                    be32(body, q + 12) as u32,
                                ),
                            ),
                        ),
                    )
                }
            } else {
                None
            }
        }
    }
}

/// Whether `s` is exactly the four bytes `a b c d`.
fn is_tag(s: &[u8], a: u8, b: u8, c: u8, d: u8) -> (r: bool)
    requires
        s@.len() == 4,
    ensures
        r == (s@ == seq![a, b, c, d]),
{
    let r = s[0] == a && s[1] == b && s[2] == c && s[3] == d;
    if r {
        assert(s@ =~= seq![a, b, c, d]);
    }
    r
}

/// Parse one `.ase` color block.
pub fn parse_ase_color(body: &[u8]) -> (r: Option<(Swatch, Option<FloatColor>)>)
    ensures
        match ase_color_spec(body@) {
            None => r is None,
            Some(v) => r matches Some(x) && x.0@ == v.0 && x.1 == v.1,
        },
{
    let ghost b = body@;
    let mut r = Reader::new(body);
    let n = match r.u16() {
        Some(n) => n as usize,
        None => return None,
    };
    let units = match r.take(n * 2) {
        Some(u) => u,
        None => return None,
    };
    let name = utf16be_string(units);
    let model = match r.take(4) {
        Some(m) => m,
        None => return None,
    };
    let q: usize = 2 + 2 * n;
    assert(model@ == b.subrange(q as int, q + 4));
    if is_tag(model, 82, 71, 66, 32) {
        let x = match r.u32() {
            Some(v) => v,
            None => return None,
        };
        let y = match r.u32() {
            Some(v) => v,
            None => return None,
        };
        let z = match r.u32() {
            Some(v) => v,
            None => return None,
        };
        let rgb = (unit8(x), unit8(y), unit8(z));
        let shown = if name.as_str().is_empty() {
            hex(rgb)
        } else {
            name
        };
        Some((Swatch { name: shown, rgb }, None))
    } else if is_tag(model, 67, 77, 89, 75) {
        let c = match r.u32() {
            Some(v) => v,
            None => return None,
        };
        let m = match r.u32() {
            Some(v) => v,
            None => return None,
        };
        let y = match r.u32() {
            Some(v) => v,
            None => return None,
        };
        let k = match r.u32() {
            Some(v) => v,
            None => return None,
        };
        Some((Swatch { name, rgb: (0, 0, 0) }, Some(FloatColor::AseCmyk(c, m, y, k))))
    } else if is_tag(model, 71, 114, 97, 121) {
        let x = match r.u32() {
            Some(v) => v,
            None => return None,
        };
        let g = unit8(x);
        let shown = if name.as_str().is_empty() {
            hex((g, g, g))
        } else {
            name
        };
        Some((Swatch { name: shown, rgb: (g, g, g) }, None))
    } else if is_tag(model, 76, 65, 66, 32) {
        let l = match r.u32() {
            Some(v) => v,
            None => return None,
        };
        let a = match r.u32() {
            Some(v) => v,
            None => return None,
        };
        let bb = match r.u32() {
            Some(v) => v,
            None => return None,
        };
        Some((Swatch { name, rgb: (0, 0, 0) }, Some(FloatColor::AseLab(l, a, bb))))
    } else {
        None
    }
}


/// A parsed color block: the swatch and the color left to the caller, if any.
pub type Entry = (SwatchView, Option<FloatColor>);

/// The `k` blocks of an `.ase` file from `p`: each a 16-bit kind, a 32-bit length and that
/// many bytes; the color blocks (kind 1) that parse give entries.
pub open spec fn ase_blocks(b: Seq<u8>, p: int, k: nat) -> Option<Seq<Entry>>
    decreases k,
{
    if k == 0 {
        Some(seq![])
    } else if p + 6 > b.len() {
        None
    } else {
        let l = be32(b, p + 2);
        if p + 6 + l > b.len() {
            None
        } else {
            let here = if be16(b, p) == 1 {
                match ase_color_spec(b.subrange(p + 6, p + 6 + l)) {
                    Some(e) => seq![e],
                    None => seq![],
                }
            } else {
                seq![]
            };
            match ase_blocks(b, p + 6 + l, (k - 1) as nat) {
                None => None,
                Some(rest) => Some(here + rest),
            }
        }
    }
}

/// The pending colors of a list of entries, by position.
pub open spec fn entries_pending(e: Seq<Entry>) -> Seq<Pending>
    decreases e.len(),
{
    if e.len() == 0 {
        seq![]
    } else {
        let prev = entries_pending(e.drop_last());
        match e.last().1 {
            Some(c) => prev.push(
                Pending { index: (e.len() - 1) as usize, named: e.last().0.0.len() > 0, color: c },
            ),
            None => prev,
        }
    }
}

/// What an `.ase` file parses to: the `ASEF` signature, a version, a block count and the
/// blocks; no color block is no palette.
pub open spec fn parse_ase_spec(b: Seq<u8>) -> Option<PaletteView> {
    if b.len() < 12 || b.take(4) != seq![65u8, 83, 69, 70] {
        None
    } else {
        match ase_blocks(b, 12, be32(b, 8) as nat) {
            None => None,
            Some(e) => if e.len() == 0 {
                None
            } else {
                Some((0u32, e.map_values(|x: Entry| x.0), entries_pending(e)))
            },
        }
    }
}

/// Parse an Adobe `.ase` palette.
pub fn parse_ase(bytes: &[u8]) -> (p: Option<Palette>)
    ensures
        match parse_ase_spec(bytes@) {
            None => p is None,
            Some(v) => p matches Some(x) && x@ == v,
        },
{
    let ghost b = bytes@;
    let mut r = Reader::new(bytes);
    let sig = match r.take(4) {
        Some(s) => s,
        None => return None,
    };
    if !is_tag(sig, 65, 83, 69, 70) {
        return None;
    }
    let _version = match r.u32() {
        Some(v) => v,
        None => return None,
    };
    let blocks = match r.u32() {
        Some(v) => v,
        None => return None,
    };
    assert(b.take(4) =~= sig@);
    let mut swatches: Vec<Swatch> = Vec::new();
    let mut pending: Vec<Pending> = Vec::new();
    let ghost mut entries: Seq<Entry> = seq![];
    let mut i: u32 = 0;
    while i < blocks
        invariant
            r.wf(),
            r.b@ == b,
            b == bytes@,
            b.len() >= 12,
            b.take(4) == seq![65u8, 83, 69, 70],
            blocks == be32(b, 8),
            i <= blocks,
            swatches@.map_values(|x: Swatch| x@) == entries.map_values(|x: Entry| x.0),
            pending@ == entries_pending(entries),
            ase_blocks(b, 12, blocks as nat) == match ase_blocks(b, r.p as int, (blocks - i) as nat) {
                None => None,
                Some(rest) => Some(entries + rest),
            },
        decreases blocks - i,
    {
        let ghost p0 = r.p as int;
        let ghost e0 = entries;
        let kind = match r.u16() {
            Some(v) => v,
            None => return None,
        };
        let len = match r.u32() {
            Some(v) => v as usize,
            None => return None,
        };
        let body = match r.take(len) {
            Some(v) => v,
            None => return None,
        };
        let ghost here: Seq<Entry> = if kind == 1 {
            match ase_color_spec(body@) {
                Some(e) => seq![e],
                None => seq![],
            }
        } else {
            seq![]
        };
        if kind == 1 {
            match parse_ase_color(body) {
                Some((sw, color)) => {
                    let ghost e: Entry = (sw@, color);
                    let ghost before = swatches@.map_values(|x: Swatch| x@);
                    match color {
                        Some(c) => {
                            let named = !sw.name.as_str().is_empty();
                            pending.push(Pending { index: swatches.len(), named, color: c });
                        },
                        None => {},
                    }
                    swatches.push(sw);
                    proof {
                        assert(swatches@.map_values(|x: Swatch| x@) =~= before.push(e.0));
                        assert((entries + seq![e]).drop_last() =~= entries);
                        assert(entries.map_values(|x: Entry| x.0).len() == entries.len());
                        entries = entries + seq![e];
                        assert(swatches@.map_values(|x: Swatch| x@) =~= entries.map_values(|x: Entry| x.0));
                    }
                },
                None => {},
            }
        }
        proof {
            assert(body@ == b.subrange(p0 + 6, p0 + 6 + len));
            assert(entries == e0 + here) by {
                if !(kind == 1 && ase_color_spec(body@) is Some) {
                    assert(e0 + Seq::<Entry>::empty() =~= e0);
                }
            }
            match ase_blocks(b, r.p as int, (blocks - i - 1) as nat) {
                Some(rest) => {
                    assert(e0 + (here + rest) =~= (e0 + here) + rest);
                },
                None => {},
            }
        }
        i = i + 1;
    }
    if swatches.len() == 0 {
        return None;
    }
    Some(Palette { columns: 0, swatches, pending })
}


/// The position of the first character of `s` at or after `i` that is (when `ws`) or is not
/// white space, or the end.
pub open spec fn next_run(s: Seq<char>, i: int, ws: bool) -> int
    decreases s.len() - i,
{
    if i < 0 || i >= s.len() {
        s.len() as int
    } else if is_white_space(s[i]) == ws {
        i
    } else {
        next_run(s, i + 1, ws)
    }
}

/// The white-space separated words of `s` from position `i`.
pub open spec fn words_from(s: Seq<char>, i: int) -> Seq<Seq<char>>
    decreases s.len() - i,
{
    let a = next_run(s, i, false);
    if i < 0 || a >= s.len() {
        seq![]
    } else {
        let e = next_run(s, a, true);
        proof {
            if i <= s.len() {
                lemma_next_run(s, i, false);
                lemma_next_run(s, a, true);
            }
        }
        if e <= a || i > s.len() {
            seq![]
        } else {
            seq![s.subrange(a, e)] + words_from(s, e)
        }
    }
}

pub proof fn lemma_next_run(s: Seq<char>, i: int, ws: bool)
    requires
        0 <= i <= s.len(),
    ensures
        i <= next_run(s, i, ws) <= s.len(),
        forall|k: int| i <= k < next_run(s, i, ws) ==> is_white_space(#[trigger] s[k]) != ws,
        next_run(s, i, ws) < s.len() ==> is_white_space(s[next_run(s, i, ws)]) == ws,
    decreases s.len() - i,
{
    if i < s.len() && is_white_space(s[i]) != ws {
        lemma_next_run(s, i + 1, ws);
    }
}

/// The position of the first character at or after `i` that is (when `ws`) or is not white
/// space, or the end.
fn find_run(s: &[char], i: usize, ws: bool) -> (r: usize)
    requires
        i <= s.len(),
    ensures
        r == next_run(s@, i as int, ws),
{
    let mut k = i;
    while k < s.len() && white_space(s[k]) != ws
        invariant
            i <= k <= s.len(),
            next_run(s@, i as int, ws) == next_run(s@, k as int, ws),
        decreases s.len() - k,
    {
        k = k + 1;
    }
    k
}

/// The white-space separated words of `s`.
pub fn words(s: &[char]) -> (r: Vec<Vec<char>>)
    ensures
        r@.map_values(|w: Vec<char>| w@) == words_from(s@, 0),
{
    let mut out: Vec<Vec<char>> = Vec::new();
    let mut i: usize = 0;
    while i < s.len()
        invariant
            i <= s.len(),
            words_from(s@, 0) == out@.map_values(|w: Vec<char>| w@) + words_from(s@, i as int),
        decreases s.len() - i,
    {
        let a = find_run(s, i, false);
        proof {
            lemma_next_run(s@, i as int, false);
        }
        if a >= s.len() {
            assert(words_from(s@, i as int) =~= Seq::<Seq<char>>::empty());
            i = s.len();
            assert(words_from(s@, i as int) =~= Seq::<Seq<char>>::empty());
        } else {
        let e = find_run(s, a, true);
        proof {
            lemma_next_run(s@, a as int, true);
        }
        let ghost before = out@.map_values(|w: Vec<char>| w@);
        let mut w: Vec<char> = Vec::new();
        let mut k = a;
        while k < e
            invariant
                a <= k <= e <= s.len(),
                w@ == s@.subrange(a as int, k as int),
            decreases e - k,
        {
            w.push(s[k]);
            assert(s@.subrange(a as int, k + 1) =~= s@.subrange(a as int, k as int).push(s@[k as int]));
            k = k + 1;
        }
        out.push(w);
        proof {
            assert(out@.map_values(|w: Vec<char>| w@) =~= before.push(s@.subrange(a as int, e as int)));
            assert(before + (seq![s@.subrange(a as int, e as int)] + words_from(s@, e as int)) =~= before.push(s@.subrange(a as int, e as int)) + words_from(s@, e as int));
        }
        i = e;
        }
    }
    proof {
        assert(i == s@.len());
        assert(next_run(s@, i as int, false) == s@.len());
        assert(words_from(s@, i as int) =~= Seq::<Seq<char>>::empty());
        assert(out@.map_values(|w: Vec<char>| w@) + words_from(s@, i as int) =~= out@.map_values(|w: Vec<char>| w@));
    }
    out
}


/// `v` clamped to `0..=255`.
pub open spec fn clamp8_spec(v: int) -> u8 {
    if v < 0 {
        0
    } else if v > 255 {
        255
    } else {
        v as u8
    }
}

/// `v` clamped to `0..=255`.
pub fn clamp8(v: i32) -> (r: u8)
    ensures
        r == clamp8_spec(v as int),
{
    if v < 0 {
        0
    } else if v > 255 {
        255
    } else {
        v as u8
    }
}

/// The characters `Columns:`.
pub open spec fn columns_tag() -> Seq<char> {
    seq!['C', 'o', 'l', 'u', 'm', 'n', 's', ':']
}

/// One `.gpl` line applied to the column count and swatches read so far: blank lines and
/// `#` comments are skipped; `Columns:` sets the count (0 when it does not read); a line
/// opening with three integers is a swatch (components clamped to 0..255) named by the rest of
/// its words, or by its `#RRGGBB`; any other line is skipped.
pub open spec fn gpl_line(line: Seq<char>, cols: u32, sw: Seq<SwatchView>) -> (u32, Seq<SwatchView>) {
    let l = trim_end(trim_start(line));
    if l.len() == 0 || l[0] == '#' {
        (cols, sw)
    } else if l.len() >= 8 && l.take(8) == columns_tag() {
        (
            match parse_u32_spec(trim_end(trim_start(l.skip(8)))) {
                Some(v) => v as u32,
                None => 0,
            },
            sw,
        )
    } else {
        let w = words_from(l, 0);
        if w.len() >= 3 && parse_i32_spec(w[0]) is Some && parse_i32_spec(w[1]) is Some
            && parse_i32_spec(w[2]) is Some {
            let rgb = (
                clamp8_spec(parse_i32_spec(w[0])->0),
                clamp8_spec(parse_i32_spec(w[1])->0),
                clamp8_spec(parse_i32_spec(w[2])->0),
            );
            let name = join_texts(w.skip(3), ' ');
            (cols, sw.push((if name.len() == 0 { rgb_hex(rgb) } else { name }, rgb)))
        } else {
            (cols, sw)
        }
    }
}

/// The position of the first `c` in `s` at or after `i`.
pub open spec fn find_char(s: Seq<char>, c: char, i: int) -> Option<int>
    decreases s.len() - i,
{
    if i < 0 || i >= s.len() {
        None
    } else if s[i] == c {
        Some(i)
    } else {
        find_char(s, c, i + 1)
    }
}

/// `l` without one trailing carriage return.
pub open spec fn strip_cr(l: Seq<char>) -> Seq<char> {
    if l.len() > 0 && l.last() == '\r' {
        l.drop_last()
    } else {
        l
    }
}

/// The lines of `t` (split at `\n`, a `\r` before it dropped, no empty line after a final
/// newline), each applied in order.
pub open spec fn gpl_scan(t: Seq<char>, cols: u32, sw: Seq<SwatchView>) -> (u32, Seq<SwatchView>)
    decreases t.len(),
{
    if t.len() == 0 {
        (cols, sw)
    } else {
        match find_char(t, '\n', 0) {
            Some(i) => {
                let (c2, s2) = gpl_line(strip_cr(t.take(i)), cols, sw);
                if 0 <= i < t.len() {
                    gpl_scan(t.skip(i + 1), c2, s2)
                } else {
                    (c2, s2)
                }
            },
            None => gpl_line(t, cols, sw),
        }
    }
}

/// What a `.gpl` file parses to: UTF-8 text whose lines give at least one swatch.
pub open spec fn parse_gpl_spec(b: Seq<u8>) -> Option<PaletteView> {
    if !vstd::utf8::valid_utf8(b) {
        None
    } else {
        let (cols, sw) = gpl_scan(vstd::utf8::decode_utf8(b), 0, seq![]);
        if sw.len() == 0 {
            None
        } else {
            Some((cols, sw, seq![]))
        }
    }
}

/// Words `w[from..]` joined by single spaces.
fn join_words(w: &Vec<Vec<char>>, from: usize) -> (r: Vec<char>)
    requires
        from <= w@.len(),
    ensures
        r@ == join_texts(w@.map_values(|x: Vec<char>| x@).skip(from as int), ' '),
{
    let ghost ws = w@.map_values(|x: Vec<char>| x@);
    let mut out: Vec<char> = Vec::new();
    let mut k: usize = from;
    assert(ws.skip(from as int).take(0) =~= Seq::<Seq<char>>::empty());
    while k < w.len()
        invariant
            from <= k <= w@.len(),
            ws == w@.map_values(|x: Vec<char>| x@),
            out@ == join_texts(ws.skip(from as int).take(k - from), ' '),
        decreases w.len() - k,
    {
        let ghost pre = ws.skip(from as int).take(k - from);
        let ghost post = ws.skip(from as int).take(k + 1 - from);
        assert(post.drop_last() =~= pre);
        assert(post.last() == w@[k as int]@);
        if k > from {
            out.push(' ');
        } else {
            assert(pre.len() == 0);
        }
        let mut j: usize = 0;
        let ghost base = out@;
        while j < w[k].len()
            invariant
                k < w@.len(),
                j <= w@[k as int]@.len(),
                out@ == base + w@[k as int]@.take(j as int),
            decreases w@[k as int]@.len() - j,
        {
            out.push(w[k][j]);
            assert(w@[k as int]@.take(j + 1) =~= w@[k as int]@.take(j as int).push(w@[k as int]@[j as int]));
            j = j + 1;
        }
        assert(w@[k as int]@.take(j as int) =~= w@[k as int]@);
        proof {
            if k > from {
                assert(out@ =~= join_texts(pre, ' ') + seq![' '] + post.last());
            } else {
                assert(post =~= seq![w@[k as int]@]);
                assert(out@ =~= w@[k as int]@);
            }
        }
        k = k + 1;
    }
    assert(ws.skip(from as int).take(w.len() - from) =~= ws.skip(from as int));
    out
}


/// Whether `l` opens with `Columns:`.
fn opens_columns(l: &[char]) -> (r: bool)
    ensures
        r == (l@.len() >= 8 && l@.take(8) == columns_tag()),
{
    let r = l.len() >= 8 && l[0] == 'C' && l[1] == 'o' && l[2] == 'l' && l[3] == 'u' && l[4]
        == 'm' && l[5] == 'n' && l[6] == 's' && l[7] == ':';
    proof {
        if r {
            assert(l@.take(8) =~= columns_tag());
        } else if l@.len() >= 8 && l@.take(8) == columns_tag() {
            assert(l@.take(8)[0] == 'C' && l@.take(8)[1] == 'o' && l@.take(8)[2] == 'l');
            assert(l@.take(8)[3] == 'u' && l@.take(8)[4] == 'm' && l@.take(8)[5] == 'n');
            assert(l@.take(8)[6] == 's' && l@.take(8)[7] == ':');
        }
    }
    r
}

/// Apply one `.gpl` line.
fn gpl_line_exec(line: &[char], cols: &mut u32, swatches: &mut Vec<Swatch>)
    ensures
        (*final(cols), final(swatches)@.map_values(|x: Swatch| x@)) == gpl_line(
            line@,
            *old(cols),
            old(swatches)@.map_values(|x: Swatch| x@),
        ),
{
    let (a, b) = trim_range(line);
    let l = &line[a..b];
    assert(l@ =~= trim_end(trim_start(line@)));
    if l.len() == 0 || l[0] == '#' {
        return;
    }
    if opens_columns(l) {
        let rest = &l[8..l.len()];
        assert(rest@ =~= l@.skip(8));
        let (c, d) = trim_range(rest);
        let t = &rest[c..d];
        assert(t@ =~= trim_end(trim_start(rest@)));
        *cols = match parse_u32_chars(t) {
            Some(v) => v,
            None => 0,
        };
        return;
    }
    let w = words(l);
    let ghost wv = w@.map_values(|x: Vec<char>| x@);
    if w.len() < 3 {
        return;
    }
    assert(wv[0] == w@[0]@ && wv[1] == w@[1]@ && wv[2] == w@[2]@);
    let r = parse_i32_chars(w[0].as_slice());
    let g = parse_i32_chars(w[1].as_slice());
    let bb = parse_i32_chars(w[2].as_slice());
    match (r, g, bb) {
        (Some(r), Some(g), Some(bb)) => {
            let rgb = (clamp8(r), clamp8(g), clamp8(bb));
            let name = join_words(&w, 3);
            let ghost before = swatches@.map_values(|x: Swatch| x@);
            let shown = if name.len() == 0 {
                hex(rgb)
            } else {
                string_of_chars(name.as_slice())
            };
            swatches.push(Swatch { name: shown, rgb });
            assert(swatches@.map_values(|x: Swatch| x@) =~= before.push(swatches@.last()@));
        },
        _ => {},
    }
}

/// Parse a GIMP `.gpl` palette.
pub fn parse_gpl(bytes: &[u8]) -> (p: Option<Palette>)
    ensures
        match parse_gpl_spec(bytes@) {
            None => p is None,
            Some(v) => p matches Some(x) && x@ == v,
        },
{
    let text = match str_from_utf8(bytes) {
        Some(t) => t,
        None => return None,
    };
    let cs = chars_of(text);
    let mut cols: u32 = 0;
    let mut swatches: Vec<Swatch> = Vec::new();
    let mut pos: usize = 0;
    assert(cs@.skip(0) =~= cs@);
    assert(swatches@.map_values(|x: Swatch| x@) =~= Seq::<SwatchView>::empty());
    while pos < cs.len()
        invariant
            pos <= cs.len(),
            gpl_scan(cs@, 0, seq![]) == gpl_scan(cs@.skip(pos as int), cols, swatches@.map_values(|x: Swatch| x@)),
        decreases cs.len() - pos,
    {
        let ghost t = cs@.skip(pos as int);
        let mut k = pos;
        while k < cs.len() && cs[k] != '\n'
            invariant
                pos <= k <= cs.len(),
                t == cs@.skip(pos as int),
                find_char(t, '\n', 0) == find_char(t, '\n', k - pos),
            decreases cs.len() - k,
        {
            assert(t[k - pos] == cs@[k as int]);
            k = k + 1;
        }
        if k < cs.len() {
            assert(t[k - pos] == cs@[k as int]);
            let mut e = k;
            if e > pos && cs[e - 1] == '\r' {
                e = e - 1;
            }
            let line = &cs.as_slice()[pos..e];
            assert(line@ =~= strip_cr(t.take(k - pos)));
            gpl_line_exec(line, &mut cols, &mut swatches);
            assert(t.skip(k - pos + 1) =~= cs@.skip(k + 1));
            pos = k + 1;
        } else {
            let line = &cs.as_slice()[pos..cs.len()];
            assert(line@ =~= t);
            gpl_line_exec(line, &mut cols, &mut swatches);
            assert(cs@.skip(cs.len() as int) =~= Seq::<char>::empty());
            pos = cs.len();
        }
    }
    assert(cs@.skip(pos as int) =~= Seq::<char>::empty());
    if swatches.len() == 0 {
        return None;
    }
    Some(Palette { columns: cols, swatches, pending: Vec::new() })
}


/// Whether the lower-cased `path` ends with one of `.gpl`, `.kpl`, `.aco`, `.ase`.
pub open spec fn palette_path(path: Seq<char>) -> bool {
    let l = lowercase(path);
    ends_with(l, ".gpl"@) || ends_with(l, ".kpl"@) || ends_with(l, ".aco"@) || ends_with(l, ".ase"@)
}

/// True for the palette extensions the engine diffs (`.gpl`, `.kpl`, `.aco`, `.ase`), in any
/// case.
pub fn is_palette(path: &str) -> (r: bool)
    ensures
        r == palette_path(path@),
{
    let lower = to_lowercase(path);
    str_ends_with(lower.as_str(), ".gpl") || str_ends_with(lower.as_str(), ".kpl")
        || str_ends_with(lower.as_str(), ".aco") || str_ends_with(lower.as_str(), ".ase")
}

/// What a palette file parses to, by extension. A `.kpl` is not read here: its colors are
/// decimal fractions that only floating-point arithmetic converts.
pub open spec fn parse_spec(path: Seq<char>, b: Seq<u8>) -> Option<PaletteView> {
    let l = lowercase(path);
    if ends_with(l, ".gpl"@) {
        parse_gpl_spec(b)
    } else if ends_with(l, ".kpl"@) {
        None
    } else if ends_with(l, ".aco"@) {
        parse_aco_spec(b)
    } else if ends_with(l, ".ase"@) {
        parse_ase_spec(b)
    } else {
        None
    }
}

/// Parse a palette by extension; `None` when the extension is not a palette's, the bytes do
/// not parse, or it is a `.kpl` (see [`parse_spec`]).
pub fn parse(path: &str, bytes: &[u8]) -> (p: Option<Palette>)
    ensures
        match parse_spec(path@, bytes@) {
            None => p is None,
            Some(v) => p matches Some(x) && x@ == v,
        },
{
    let lower = to_lowercase(path);
    if str_ends_with(lower.as_str(), ".gpl") {
        parse_gpl(bytes)
    } else if str_ends_with(lower.as_str(), ".kpl") {
        None
    } else if str_ends_with(lower.as_str(), ".aco") {
        parse_aco(bytes)
    } else if str_ends_with(lower.as_str(), ".ase") {
        parse_ase(bytes)
    } else {
        None
    }
}

} // verus!
