use vstd::prelude::*;
use crate::display::size::Size;
use crate::float_bits::{f32_is_nan, f32_key, f32_bits_le, f32_bits_is_nan};
use crate::text::{
    chars_of, count_char, decimal, first_index, lemma_count_concat, lemma_decimal_count,
    lemma_decimal_digits, lemma_first_index_at, lemma_single_occurrence, law_decimal_parses_back,
    parse_u32, parse_u32_spec, scan_char, string_from_chars, sub_chars,
};

verus! {

/// A resolution that a monitor offers, with the refresh rates it offers at
/// that resolution (binary32 bit patterns, highest rate first).
pub struct Mode {
    pub resolution: Size,
    pub refresh_rate: Vec<u32>,
}

/// The parts of one mode string such as `1920x1080@60.00Hz`.
pub struct ModeParts {
    pub width: u32,
    pub height: u32,
    /// The refresh rate as written, without its `Hz` suffix.
    pub refresh_rate: String,
}

/// One offered mode, with its refresh rate read as a binary32 number.
#[derive(Clone, Copy, Debug, PartialEq, Eq, Structural)]
pub struct ModeEntry {
    pub width: u32,
    pub height: u32,
    /// The binary32 bit pattern of the refresh rate.
    pub rate: u32,
}

/// `s` without every trailing `Hz` (`trim_end_matches("Hz")`).
pub open spec fn trim_hz(s: Seq<char>) -> Seq<char>
    decreases s.len(),
{
    if s.len() >= 2 && s[s.len() - 2] == 'H' && s[s.len() - 1] == 'z' {
        trim_hz(s.take(s.len() - 2))
    } else {
        s
    }
}

/// What a mode string holds: split at its one `@`, the left part split at its
/// one `x` into a width and a height (each as `str::parse::<u32>` reads it),
/// and the right part, less its trailing `Hz`, the refresh rate.
pub open spec fn split_mode_spec(s: Seq<char>) -> Option<(u32, u32, Seq<char>)> {
    if count_char(s, '@') != 1 {
        None
    } else {
        let at = first_index(s, '@');
        let res = s.take(at);
        let rate = s.skip(at + 1);
        if count_char(res, 'x') != 1 {
            None
        } else {
            let x = first_index(res, 'x');
            match (parse_u32_spec(res.take(x)), parse_u32_spec(res.skip(x + 1))) {
                (Some(w), Some(h)) => Some((w, h, trim_hz(rate))),
                _ => None,
            }
        }
    }
}

fn trim_hz_end(v: &Vec<char>) -> (end: usize)
    ensures
        end <= v.len(),
        v@.take(end as int) == trim_hz(v@),
{
    let mut end = v.len();
    assert(v@.take(end as int) == v@);
    while end >= 2 && v[end - 2] == 'H' && v[end - 1] == 'z'
        invariant
            end <= v.len(),
            trim_hz(v@.take(end as int)) == trim_hz(v@),
        decreases end,
    {
        assert(v@.take(end as int).take(end - 2) == v@.take(end - 2));
        end = end - 2;
    }
    end
}

/// Splits a mode string such as `1920x1080@60.00Hz` into width, height and
/// refresh-rate text; `None` where it does not have that shape.
pub fn split_mode_string(s: &str) -> (r: Option<ModeParts>)
    ensures
        match split_mode_spec(s@) {
            Some((w, h, rate)) => r matches Some(p) && p.width == w && p.height == h
                && p.refresh_rate@ == rate,
            None => r is None,
        },
{
    let v = chars_of(s);
    let (ats, at) = scan_char(&v, '@');
    if ats != 1 {
        return None;
    }
    proof {
        lemma_single_occurrence(v@, '@');
    }
    let at = at.unwrap();
    let res = sub_chars(&v, 0, at);
    let rate = sub_chars(&v, at + 1, v.len());
    assert(res@ == v@.take(at as int));
    assert(rate@ == v@.skip(at + 1));
    let (xs, x) = scan_char(&res, 'x');
    if xs != 1 {
        return None;
    }
    proof {
        lemma_single_occurrence(res@, 'x');
    }
    let x = x.unwrap();
    let w_chars = sub_chars(&res, 0, x);
    let h_chars = sub_chars(&res, x + 1, res.len());
    assert(w_chars@ == res@.take(x as int));
    assert(h_chars@ == res@.skip(x + 1));
    let w = parse_u32(w_chars.as_slice());
    let h = parse_u32(h_chars.as_slice());
    match (w, h) {
        (Some(width), Some(height)) => {
            let end = trim_hz_end(&rate);
            let trimmed = sub_chars(&rate, 0, end);
            assert(trimmed@ == rate@.take(end as int));
            Some(ModeParts { width, height, refresh_rate: string_from_chars(&trimmed) })
        },
        _ => None,
    }
}

/// The rates of `s` that stand at `k` on the number line, in their order in `s`.
pub open spec fn rates_with_key(s: Seq<u32>, k: int) -> Seq<u32>
    decreases s.len(),
{
    if s.len() == 0 {
        Seq::empty()
    } else if f32_key(s.last()) == k {
        rates_with_key(s.drop_last(), k).push(s.last())
    } else {
        rates_with_key(s.drop_last(), k)
    }
}

/// Whether `s` runs from the highest rate to the lowest.
pub open spec fn sorted_desc(s: Seq<u32>) -> bool {
    forall|i: int, j: int| #![trigger s[i], s[j]] 0 <= i < j < s.len() ==> f32_key(s[j]) <= f32_key(s[i])
}

/// `out` is `inp` sorted highest first by a stable sort: rates that compare
/// equal keep their order in `inp`.
pub open spec fn is_stable_desc_sort(out: Seq<u32>, inp: Seq<u32>) -> bool {
    &&& sorted_desc(out)
    &&& forall|k: int| #[trigger] rates_with_key(out, k) == rates_with_key(inp, k)
}

/// Whether sorting `rates` would compare a NaN, which the comparison that
/// orders them does not allow: only a list of two or more can hold one.
pub open spec fn rates_sortable(rates: Seq<u32>) -> bool {
    rates.len() >= 2 ==> forall|i: int| 0 <= i < rates.len() ==> !f32_is_nan(#[trigger] rates[i])
}

proof fn lemma_rates_with_key_add(a: Seq<u32>, b: Seq<u32>, k: int)
    ensures
        rates_with_key(a + b, k) == rates_with_key(a, k) + rates_with_key(b, k),
    decreases b.len(),
{
    if b.len() == 0 {
        assert(a + b == a);
        assert(rates_with_key(a, k) + Seq::<u32>::empty() == rates_with_key(a, k));
    } else {
        lemma_rates_with_key_add(a, b.drop_last(), k);
        assert((a + b).drop_last() == a + b.drop_last());
        assert((a + b).last() == b.last());
    }
}

proof fn lemma_rates_with_key_none(s: Seq<u32>, k: int)
    requires
        forall|i: int| 0 <= i < s.len() ==> f32_key(#[trigger] s[i]) != k,
    ensures
        rates_with_key(s, k) == Seq::<u32>::empty(),
    decreases s.len(),
{
    if s.len() > 0 {
        assert(f32_key(s[s.len() - 1]) != k);
        lemma_rates_with_key_none(s.drop_last(), k);
    }
}

proof fn lemma_rates_with_key_single(x: u32, k: int)
    ensures
        rates_with_key(seq![x], k) == (if f32_key(x) == k {
            seq![x]
        } else {
            Seq::<u32>::empty()
        }),
{
    assert(seq![x].drop_last() == Seq::<u32>::empty());
    assert(seq![x].last() == x);
    assert(rates_with_key(Seq::<u32>::empty(), k) == Seq::<u32>::empty());
    assert(Seq::<u32>::empty().push(x) == seq![x]);
}

proof fn lemma_rates_with_key_push(s: Seq<u32>, x: u32, k: int)
    ensures
        rates_with_key(s.push(x), k) == (if f32_key(x) == k {
            rates_with_key(s, k).push(x)
        } else {
            rates_with_key(s, k)
        }),
{
    assert(s.push(x).drop_last() == s);
}

/// Inserts `x` into a rate list sorted highest first, after every rate that
/// is not below it.
fn insert_rate_desc(out: &mut Vec<u32>, x: u32)
    requires
        sorted_desc(old(out)@),
    ensures
        sorted_desc(final(out)@),
        forall|k: int| #[trigger] rates_with_key(final(out)@, k) == rates_with_key(
            old(out)@.push(x),
            k,
        ),
{
    let ghost o = out@;
    let mut p: usize = 0;
    while p < out.len() && f32_bits_le(x, out[p])
        invariant
            out@ == o,
            p <= out.len(),
            forall|q: int| 0 <= q < p ==> f32_key(x) <= f32_key(#[trigger] o[q]),
        decreases out.len() - p,
    {
        p = p + 1;
    }
    let ghost a = o.take(p as int);
    let ghost b = o.skip(p as int);
    proof {
        assert(o == a + b);
        assert forall|q: int| 0 <= q < b.len() implies f32_key(#[trigger] b[q]) < f32_key(x) by {
            assert(b[q] == o[p + q]);
            if q > 0 {
                assert(f32_key(o[p + q]) <= f32_key(o[p as int]));
            }
        }
    }
    out.insert(p, x);
    proof {
        let n = out@;
        assert(n == a + seq![x] + b);
        assert forall|i: int, j: int| #![trigger n[i], n[j]] 0 <= i < j < n.len() implies f32_key(n[j]) <= f32_key(n[i]) by {
            if j < p {
                assert(n[i] == o[i] && n[j] == o[j]);
            } else if j == p {
                assert(n[i] == o[i]);
            } else if i < p {
                assert(n[i] == o[i] && n[j] == b[j - p - 1]);
            } else if i == p {
                assert(n[j] == b[j - p - 1]);
            } else {
                assert(n[i] == o[i - 1] && n[j] == o[j - 1]);
            }
        }
        assert forall|k: int| #[trigger] rates_with_key(n, k) == rates_with_key(o.push(x), k) by {
            lemma_rates_with_key_add(a + seq![x], b, k);
            lemma_rates_with_key_add(a, seq![x], k);
            lemma_rates_with_key_add(a, b, k);
            lemma_rates_with_key_single(x, k);
            assert(o.push(x) == o + seq![x]);
            lemma_rates_with_key_add(o, seq![x], k);
            if k == f32_key(x) {
                lemma_rates_with_key_none(b, k);
            }
        }
    }
}

/// Sorts refresh rates highest first, keeping rates that compare equal in
/// their order (`sort_by(|a, b| b.partial_cmp(a).unwrap())`).
pub fn sort_rates_desc(rates: &Vec<u32>) -> (r: Vec<u32>)
    requires
        rates_sortable(rates@),
    ensures
        is_stable_desc_sort(r@, rates@),
{
    let mut out: Vec<u32> = Vec::new();
    for i in 0..rates.len()
        invariant
            sorted_desc(out@),
            forall|k: int| #[trigger] rates_with_key(out@, k) == rates_with_key(
                rates@.take(i as int),
                k,
            ),
    {
        let ghost before = out@;
        insert_rate_desc(&mut out, rates[i]);
        assert(rates@.take(i + 1) == rates@.take(i as int).push(rates@[i as int]));
        assert forall|k: int| #[trigger] rates_with_key(out@, k) == rates_with_key(
            rates@.take(i + 1),
            k,
        ) by {
            lemma_rates_with_key_push(before, rates@[i as int], k);
            lemma_rates_with_key_push(rates@.take(i as int), rates@[i as int], k);
        }
    }
    assert(rates@.take(rates.len() as int) == rates@);
    out
}

/// The resolution of a mode entry.
pub open spec fn entry_resolution(e: ModeEntry) -> Size {
    Size { width: e.width, height: e.height }
}

/// The refresh rates of the entries at resolution `r`, in their order.
pub open spec fn rates_at(entries: Seq<ModeEntry>, r: Size) -> Seq<u32>
    decreases entries.len(),
{
    if entries.len() == 0 {
        Seq::empty()
    } else if entry_resolution(entries.last()) == r {
        rates_at(entries.drop_last(), r).push(entries.last().rate)
    } else {
        rates_at(entries.drop_last(), r)
    }
}

/// Whether some entry has resolution `r`.
pub open spec fn has_resolution(entries: Seq<ModeEntry>, r: Size) -> bool {
    exists|i: int| 0 <= i < entries.len() && entry_resolution(#[trigger] entries[i]) == r
}

/// `a` comes before `b` when resolutions are listed from the largest down:
/// by width, then by height.
pub open spec fn resolution_before(a: Size, b: Size) -> bool {
    a.width > b.width || (a.width == b.width && a.height > b.height)
}

/// Whether some mode has resolution `r`.
pub open spec fn resolution_offered(modes: Seq<Mode>, r: Size) -> bool {
    exists|k: int| 0 <= k < modes.len() && (#[trigger] modes[k]).resolution == r
}

/// Whether a mode is one of the groups of `entries`: its resolution occurs
/// there, and its rates are the rates offered at that resolution, highest first.
pub open spec fn is_group_of(m: Mode, entries: Seq<ModeEntry>) -> bool {
    &&& has_resolution(entries, m.resolution)
    &&& is_stable_desc_sort(m.refresh_rate@, rates_at(entries, m.resolution))
}

/// `modes` are the entries grouped by resolution, one mode per resolution,
/// from the largest resolution down, each with its rates highest first.
pub open spec fn groups_modes(modes: Seq<Mode>, entries: Seq<ModeEntry>) -> bool {
    &&& forall|i: int, j: int| #![trigger modes[i], modes[j]]
        0 <= i < j < modes.len() ==> resolution_before(modes[i].resolution, modes[j].resolution)
    &&& forall|i: int| 0 <= i < modes.len() ==> is_group_of(#[trigger] modes[i], entries)
    &&& forall|e: int| 0 <= e < entries.len() ==> resolution_offered(modes, entry_resolution(#[trigger] entries[e]))
}

/// Whether no group of `entries` that has two or more rates holds a NaN,
/// which the comparison that orders rates does not allow.
pub open spec fn entries_sortable(entries: Seq<ModeEntry>) -> bool {
    forall|r: Size| #[trigger] rates_sortable(rates_at(entries, r))
}

proof fn lemma_rates_at_push(entries: Seq<ModeEntry>, e: ModeEntry, r: Size)
    ensures
        rates_at(entries.push(e), r) == (if entry_resolution(e) == r {
            rates_at(entries, r).push(e.rate)
        } else {
            rates_at(entries, r)
        }),
{
    assert(entries.push(e).drop_last() == entries);
}

/// The rates of each resolution, with the resolutions in order of first appearance.
fn gather_groups(entries: &Vec<ModeEntry>) -> (groups: Vec<Mode>)
    ensures
        forall|g: int, h: int| #![trigger groups@[g], groups@[h]]
            0 <= g < h < groups.len() ==> groups@[g].resolution != groups@[h].resolution,
        forall|g: int| 0 <= g < groups.len() ==> has_resolution(entries@, (#[trigger] groups@[g]).resolution),
        forall|g: int| 0 <= g < groups.len() ==> (#[trigger] groups@[g]).refresh_rate@
            == rates_at(entries@, groups@[g].resolution),
        forall|e: int| 0 <= e < entries.len() ==> resolution_offered(groups@, entry_resolution(#[trigger] entries@[e])),
        forall|r: Size| !resolution_offered(groups@, r) ==> #[trigger] rates_at(entries@, r) == Seq::<u32>::empty(),
{
    let mut groups: Vec<Mode> = Vec::new();
    let mut i: usize = 0;
    while i < entries.len()
        invariant
            i <= entries.len(),
            forall|g: int, h: int| #![trigger groups@[g], groups@[h]]
                0 <= g < h < groups.len() ==> groups@[g].resolution != groups@[h].resolution,
            forall|g: int| 0 <= g < groups.len() ==> has_resolution(
                entries@.take(i as int),
                (#[trigger] groups@[g]).resolution,
            ),
            forall|g: int| 0 <= g < groups.len() ==> (#[trigger] groups@[g]).refresh_rate@
                == rates_at(entries@.take(i as int), groups@[g].resolution),
            forall|e: int| 0 <= e < i ==> resolution_offered(groups@, entry_resolution(#[trigger] entries@[e])),
            forall|r: Size| !resolution_offered(groups@, r) ==> #[trigger] rates_at(entries@.take(i as int), r) == Seq::<u32>::empty(),
        decreases entries.len() - i,
    {
        let e = entries[i];
        let r = Size { width: e.width, height: e.height };
        let ghost before = groups@;
        let ghost pre = entries@.take(i as int);
        assert(entries@.take(i + 1) == pre.push(e));
        let mut g: usize = 0;
        while g < groups.len() && !(groups[g].resolution.width == r.width && groups[g].resolution.height == r.height)
            invariant
                groups@ == before,
                g <= groups.len(),
                forall|h: int| 0 <= h < g ==> (#[trigger] groups@[h]).resolution != r,
            decreases groups.len() - g,
        {
            g = g + 1;
        }
        if g < groups.len() {
            groups[g].refresh_rate.push(e.rate);
        } else {
            let mut rates: Vec<u32> = Vec::new();
            rates.push(e.rate);
            groups.push(Mode { resolution: r, refresh_rate: rates });
        }
        proof {
            assert forall|h: int| 0 <= h < groups.len() implies has_resolution(
                entries@.take(i + 1),
                (#[trigger] groups@[h]).resolution,
            ) by {
                if h < before.len() {
                    assert(groups@[h].resolution == before[h].resolution);
                    let w = choose|w: int| 0 <= w < pre.len() && entry_resolution(#[trigger] pre[w]) == before[h].resolution;
                    assert(entries@.take(i + 1)[w] == pre[w]);
                } else {
                    assert(entries@.take(i + 1)[i as int] == e);
                }
            }
            assert forall|h: int| 0 <= h < groups.len() implies (#[trigger] groups@[h]).refresh_rate@
                == rates_at(entries@.take(i + 1), groups@[h].resolution) by {
                lemma_rates_at_push(pre, e, groups@[h].resolution);
                if h < before.len() {
                    assert(groups@[h].resolution == before[h].resolution);
                } else {
                    assert(!resolution_offered(before, r));
                    assert(rates_at(pre, r) == Seq::<u32>::empty());
                    assert(Seq::<u32>::empty().push(e.rate) == seq![e.rate]);
                }
            }
            assert forall|q: int| 0 <= q < i + 1 implies resolution_offered(groups@, entry_resolution(#[trigger] entries@[q])) by {
                if q < i {
                    let h = choose|h: int| 0 <= h < before.len() && (#[trigger] before[h]).resolution == entry_resolution(entries@[q]);
                    assert(groups@[h].resolution == before[h].resolution);
                } else {
                    assert(groups@[g as int].resolution == r);
                }
            }
            assert forall|s: Size| !resolution_offered(groups@, s)
                implies #[trigger] rates_at(entries@.take(i + 1), s) == Seq::<u32>::empty() by {
                lemma_rates_at_push(pre, e, s);
                assert(groups@[g as int].resolution == r);
                if exists|h: int| 0 <= h < before.len() && (#[trigger] before[h]).resolution == s {
                    let h = choose|h: int| 0 <= h < before.len() && (#[trigger] before[h]).resolution == s;
                    assert(groups@[h].resolution == before[h].resolution);
                }
            }
        }
        i = i + 1;
    }
    assert(entries@.take(entries.len() as int) == entries@);
    groups
}

fn rates_are_sortable(rates: &Vec<u32>) -> (b: bool)
    ensures
        b == rates_sortable(rates@),
{
    if rates.len() < 2 {
        return true;
    }
    for i in 0..rates.len()
        invariant
            rates.len() >= 2,
            forall|q: int| 0 <= q < i ==> !f32_is_nan(#[trigger] rates@[q]),
    {
        if f32_bits_is_nan(rates[i]) {
            return false;
        }
    }
    true
}

/// Whether the entries can be grouped: no resolution with two or more rates
/// has a NaN among them (see `entries_sortable`).
pub fn entries_are_sortable(entries: &Vec<ModeEntry>) -> (b: bool)
    ensures
        b == entries_sortable(entries@),
{
    let groups = gather_groups(entries);
    for g in 0..groups.len()
        invariant
            forall|a: int| 0 <= a < groups.len() ==> (#[trigger] groups@[a]).refresh_rate@
                == rates_at(entries@, groups@[a].resolution),
            forall|a: int| 0 <= a < g ==> rates_sortable(rates_at(entries@, (#[trigger] groups@[a]).resolution)),
    {
        if !rates_are_sortable(&groups[g].refresh_rate) {
            return false;
        }
    }
    assert forall|r: Size| #[trigger] rates_sortable(rates_at(entries@, r)) by {
        if exists|a: int| 0 <= a < groups.len() && (#[trigger] groups@[a]).resolution == r {
            let a = choose|a: int| 0 <= a < groups.len() && (#[trigger] groups@[a]).resolution == r;
        } else {
            assert(rates_at(entries@, r) == Seq::<u32>::empty());
        }
    }
    true
}

/// Groups the offered modes by resolution: one mode per resolution, from the
/// largest down (by width, then height), each with its rates highest first and
/// rates that compare equal in their order of appearance.
fn sort_group_rates(entries: &Vec<ModeEntry>, groups: &Vec<Mode>) -> (sorted: Vec<Mode>)
    requires
        entries_sortable(entries@),
        forall|a: int, b: int| #![trigger groups@[a], groups@[b]]
            0 <= a < b < groups.len() ==> groups@[a].resolution != groups@[b].resolution,
        forall|a: int| 0 <= a < groups@.len() ==> has_resolution(entries@, (#[trigger] groups@[a]).resolution),
        forall|a: int| 0 <= a < groups@.len() ==> (#[trigger] groups@[a]).refresh_rate@
            == rates_at(entries@, groups@[a].resolution),
    ensures
        sorted.len() == groups.len(),
        forall|a: int| 0 <= a < sorted@.len() ==> (#[trigger] sorted@[a]).resolution == groups@[a].resolution,
        forall|a: int| 0 <= a < sorted@.len() ==> is_group_of(#[trigger] sorted@[a], entries@),
{
    // Order each resolution's rates, highest first.
    let mut sorted: Vec<Mode> = Vec::new();
    let mut g: usize = 0;
    while g < groups.len()
        invariant
            g <= groups.len(),
            sorted.len() == g,
            entries_sortable(entries@),
            forall|a: int, b: int| #![trigger groups@[a], groups@[b]]
                0 <= a < b < groups.len() ==> groups@[a].resolution != groups@[b].resolution,
            forall|a: int| 0 <= a < groups@.len() ==> has_resolution(entries@, (#[trigger] groups@[a]).resolution),
            forall|a: int| 0 <= a < groups@.len() ==> (#[trigger] groups@[a]).refresh_rate@
                == rates_at(entries@, groups@[a].resolution),
            forall|a: int| 0 <= a < g ==> (#[trigger] sorted@[a]).resolution == groups@[a].resolution,
            forall|a: int| 0 <= a < g ==> is_group_of(#[trigger] sorted@[a], entries@),
        decreases groups.len() - g,
    {
        assert(rates_sortable(rates_at(entries@, groups@[g as int].resolution)));
        let rates = sort_rates_desc(&groups[g].refresh_rate);
        sorted.push(Mode { resolution: groups[g].resolution, refresh_rate: rates });
        g = g + 1;
    }
    sorted
}

fn order_by_resolution(entries: &Vec<ModeEntry>, sorted: Vec<Mode>) -> (out: Vec<Mode>)
    requires
        forall|a: int, b: int| #![trigger sorted@[a], sorted@[b]]
            0 <= a < b < sorted.len() ==> sorted@[a].resolution != sorted@[b].resolution,
        forall|a: int| 0 <= a < sorted@.len() ==> is_group_of(#[trigger] sorted@[a], entries@),
        forall|e: int| 0 <= e < entries@.len() ==> resolution_offered(sorted@, entry_resolution(#[trigger] entries@[e])),
    ensures
        groups_modes(out@, entries@),
{
    let mut sorted = sorted;
    // Order the resolutions, largest first.
    let mut out: Vec<Mode> = Vec::new();
    while sorted.len() > 0
        invariant
            forall|a: int, b: int| #![trigger sorted@[a], sorted@[b]]
                0 <= a < b < sorted.len() ==> sorted@[a].resolution != sorted@[b].resolution,
            forall|a: int, b: int| #![trigger sorted@[a], out@[b]]
                0 <= a < sorted@.len() && 0 <= b < out.len() ==> sorted@[a].resolution != out@[b].resolution,
            forall|a: int, b: int| #![trigger out@[a], out@[b]]
                0 <= a < b < out.len() ==> resolution_before(out@[a].resolution, out@[b].resolution),
            forall|a: int| 0 <= a < sorted@.len() ==> is_group_of(#[trigger] sorted@[a], entries@),
            forall|a: int| 0 <= a < out.len() ==> is_group_of(#[trigger] out@[a], entries@),
            forall|e: int| 0 <= e < entries@.len() ==> resolution_offered(sorted@, entry_resolution(#[trigger] entries@[e]))
                || resolution_offered(out@, entry_resolution(entries@[e])),
        decreases sorted.len(),
    {
        let ghost rem = sorted@;
        let m = sorted.pop().unwrap();
        assert(m == rem[rem.len() - 1]);
        let ghost o = out@;
        let mut p: usize = 0;
        while p < out.len() && !(m.resolution.width > out[p].resolution.width
            || (m.resolution.width == out[p].resolution.width
                && m.resolution.height > out[p].resolution.height))
            invariant
                out@ == o,
                p <= out.len(),
                forall|q: int| 0 <= q < p ==> !resolution_before(m.resolution, (#[trigger] o[q]).resolution),
            decreases out.len() - p,
        {
            p = p + 1;
        }
        let ghost res = m.resolution;
        out.insert(p, m);
        proof {
            let n = out@;
            assert forall|q: int| 0 <= q < o.len() implies res != (#[trigger] o[q]).resolution by {
                assert(rem[rem.len() - 1].resolution != o[q].resolution);
            }
            assert forall|a: int, b: int| #![trigger n[a], n[b]] 0 <= a < b < n.len()
                implies resolution_before(n[a].resolution, n[b].resolution) by {
                if b < p {
                    assert(n[a] == o[a] && n[b] == o[b]);
                } else if b == p {
                    assert(n[a] == o[a]);
                    assert(res != o[a].resolution);
                } else if a < p {
                    assert(n[a] == o[a] && n[b] == o[b - 1]);
                    assert(res != o[a].resolution);
                    assert(p < o.len());
                    if b - 1 > p {
                        assert(resolution_before(o[p as int].resolution, o[b - 1].resolution));
                    }
                } else if a == p {
                    assert(n[b] == o[b - 1]);
                    if b - 1 > p {
                        assert(resolution_before(o[p as int].resolution, o[b - 1].resolution));
                    }
                } else {
                    assert(n[a] == o[a - 1] && n[b] == o[b - 1]);
                }
            }
            assert forall|a: int| 0 <= a < n.len() implies is_group_of(#[trigger] n[a], entries@) by {
                if a < p {
                    assert(n[a] == o[a]);
                } else if a > p {
                    assert(n[a] == o[a - 1]);
                }
            }
            assert forall|a: int, b: int| #![trigger sorted@[a], n[b]]
                0 <= a < sorted@.len() && 0 <= b < n.len() implies sorted@[a].resolution != n[b].resolution by {
                assert(sorted@[a] == rem[a]);
                if b < p {
                    assert(n[b] == o[b]);
                } else if b == p {
                    assert(rem[a].resolution != rem[rem.len() - 1].resolution);
                } else {
                    assert(n[b] == o[b - 1]);
                }
            }
            assert forall|a: int, b: int| #![trigger sorted@[a], sorted@[b]]
                0 <= a < b < sorted.len() implies sorted@[a].resolution != sorted@[b].resolution by {
                assert(sorted@[a] == rem[a] && sorted@[b] == rem[b]);
            }
            assert forall|a: int| 0 <= a < sorted@.len() implies is_group_of(#[trigger] sorted@[a], entries@) by {
                assert(sorted@[a] == rem[a]);
            }
            assert forall|e: int| 0 <= e < entries@.len() implies resolution_offered(sorted@, entry_resolution(#[trigger] entries@[e]))
                || resolution_offered(n, entry_resolution(entries@[e])) by {
                if exists|a: int| 0 <= a < rem.len() && (#[trigger] rem[a]).resolution == entry_resolution(entries@[e]) {
                    let a = choose|a: int| 0 <= a < rem.len() && (#[trigger] rem[a]).resolution == entry_resolution(entries@[e]);
                    if a == rem.len() - 1 {
                        assert(n[p as int] == m);
                    } else {
                        assert(sorted@[a] == rem[a]);
                    }
                } else {
                    let b = choose|b: int| 0 <= b < o.len() && (#[trigger] o[b]).resolution == entry_resolution(entries@[e]);
                    if b < p {
                        assert(n[b] == o[b]);
                    } else {
                        assert(n[b + 1] == o[b]);
                    }
                }
            }
        }
    }
    out
}

pub fn group_modes(entries: &Vec<ModeEntry>) -> (modes: Vec<Mode>)
    requires
        entries_sortable(entries@),
    ensures
        groups_modes(modes@, entries@),
{
    let groups = gather_groups(entries);
    let sorted = sort_group_rates(entries, &groups);
    assert forall|e: int| 0 <= e < entries@.len() implies resolution_offered(sorted@, entry_resolution(#[trigger] entries@[e])) by {
        let a = choose|a: int| 0 <= a < groups@.len()
            && (#[trigger] groups@[a]).resolution == entry_resolution(entries@[e]);
        assert(sorted@[a].resolution == groups@[a].resolution);
    }
    order_by_resolution(entries, sorted)
}

/// A mode written as `<width>x<height>@<rate>`, with no `@` in the rate,
/// splits back into that width, height and rate (less its `Hz` suffix).
pub proof fn law_mode_string_round_trip(w: u32, h: u32, rate: Seq<char>)
    requires
        count_char(rate, '@') == 0,
    ensures
        split_mode_spec(decimal(w as nat) + seq!['x'] + decimal(h as nat) + seq!['@'] + rate)
            == Some((w, h, trim_hz(rate))),
{
    let dw = decimal(w as nat);
    let dh = decimal(h as nat);
    let res = dw + seq!['x'] + dh;
    let s = res + seq!['@'] + rate;
    lemma_decimal_digits(w as nat);
    lemma_decimal_digits(h as nat);
    lemma_decimal_count(w as nat, '@');
    lemma_decimal_count(h as nat, '@');
    lemma_decimal_count(w as nat, 'x');
    lemma_decimal_count(h as nat, 'x');
    lemma_count_concat(dw, seq!['x'], '@');
    lemma_count_concat(dw + seq!['x'], dh, '@');
    lemma_count_concat(res, seq!['@'], '@');
    lemma_count_concat(res + seq!['@'], rate, '@');
    assert(seq!['x'].drop_last() == Seq::<char>::empty());
    assert(seq!['@'].drop_last() == Seq::<char>::empty());
    assert(count_char(Seq::<char>::empty(), '@') == 0);
    assert(count_char(Seq::<char>::empty(), 'x') == 0);
    assert(count_char(seq!['x'], '@') == 0);
    assert(count_char(seq!['@'], '@') == 1);
    assert(count_char(seq!['x'], 'x') == 1);
    // the one `@` follows the resolution
    assert forall|j: int| 0 <= j < res.len() implies s[j] != '@' by {
        assert(s[j] == res[j]);
        if j < dw.len() {
            assert(res[j] == dw[j]);
            assert(crate::text::is_digit(dw[j]));
        } else if j > dw.len() {
            assert(res[j] == dh[j - dw.len() - 1]);
            assert(crate::text::is_digit(dh[j - dw.len() - 1]));
        }
    }
    lemma_first_index_at(s, '@', res.len() as int);
    assert(s.take(res.len() as int) == res);
    assert(s.skip(res.len() as int + 1) == rate);
    // the one `x` follows the width
    lemma_count_concat(dw, seq!['x'], 'x');
    lemma_count_concat(dw + seq!['x'], dh, 'x');
    assert forall|j: int| 0 <= j < dw.len() implies res[j] != 'x' by {
        assert(res[j] == dw[j]);
        assert(crate::text::is_digit(dw[j]));
    }
    lemma_first_index_at(res, 'x', dw.len() as int);
    assert(res.take(dw.len() as int) == dw);
    assert(res.skip(dw.len() as int + 1) == dh);
    law_decimal_parses_back(w);
    law_decimal_parses_back(h);
}

/// Whether rates that compare equal at one resolution are the same rate:
/// no resolution offers both `+0.0` and `-0.0`, the only two different rates
/// that compare equal. Where one does, their order follows the input.
pub open spec fn equal_rates_identical(entries: Seq<ModeEntry>) -> bool {
    forall|i: int, j: int|
        #![trigger entries[i], entries[j]]
        0 <= i < entries.len() && 0 <= j < entries.len() && entry_resolution(entries[i])
            == entry_resolution(entries[j]) && f32_key(entries[i].rate) == f32_key(entries[j].rate)
            ==> entries[i].rate == entries[j].rate
}

/// The entry at resolution `r` with rate `x`.
pub open spec fn entry_at(r: Size, x: u32) -> ModeEntry {
    ModeEntry { width: r.width, height: r.height, rate: x }
}

proof fn lemma_rates_at_count(e: Seq<ModeEntry>, r: Size, x: u32)
    ensures
        rates_at(e, r).to_multiset().count(x) == e.to_multiset().count(entry_at(r, x)),
    decreases e.len(),
{
    broadcast use vstd::seq_lib::group_to_multiset_ensures;

    if e.len() == 0 {
        assert(rates_at(e, r) =~= Seq::<u32>::empty());
    } else {
        lemma_rates_at_count(e.drop_last(), r, x);
        assert(e == e.drop_last().push(e.last()));
        if entry_resolution(e.last()) == r {
            assert(e.last() == entry_at(r, e.last().rate));
        } else {
            assert(e.last() != entry_at(r, x));
        }
    }
}

proof fn lemma_key_count(s: Seq<u32>, x: u32)
    ensures
        s.to_multiset().count(x) == rates_with_key(s, f32_key(x)).to_multiset().count(x),
    decreases s.len(),
{
    broadcast use vstd::seq_lib::group_to_multiset_ensures;

    if s.len() == 0 {
        assert(rates_with_key(s, f32_key(x)) =~= Seq::<u32>::empty());
    } else {
        lemma_key_count(s.drop_last(), x);
        assert(s == s.drop_last().push(s.last()));
    }
}

proof fn lemma_stable_sort_multiset(out: Seq<u32>, inp: Seq<u32>)
    requires
        is_stable_desc_sort(out, inp),
    ensures
        out.to_multiset() == inp.to_multiset(),
{
    assert forall|x: u32| out.to_multiset().count(x) == inp.to_multiset().count(x) by {
        lemma_key_count(out, x);
        lemma_key_count(inp, x);
        assert(rates_with_key(out, f32_key(x)) == rates_with_key(inp, f32_key(x)));
    }
    assert(out.to_multiset() =~= inp.to_multiset());
}

/// Two rate lists sorted highest first, holding the same rates, where rates
/// that compare equal are the same, are the same list.
proof fn lemma_sorted_rates_unique(a: Seq<u32>, b: Seq<u32>)
    requires
        sorted_desc(a),
        sorted_desc(b),
        a.to_multiset() == b.to_multiset(),
        forall|x: u32, y: u32| a.contains(x) && a.contains(y) && f32_key(x) == f32_key(y) ==> x == y,
    ensures
        a == b,
    decreases a.len(),
{
    broadcast use vstd::seq_lib::group_to_multiset_ensures;

    assert(a.to_multiset().len() == a.len());
    assert(b.to_multiset().len() == b.len());
    if a.len() > 0 {
        assert(a.contains(a[0]));
        assert(a.to_multiset().count(a[0]) > 0);
        assert(b.to_multiset().count(a[0]) > 0);
        assert(b.contains(b[0]));
        assert(b.to_multiset().count(b[0]) > 0);
        assert(a.to_multiset().count(b[0]) > 0);
        let j = choose|j: int| 0 <= j < b.len() && b[j] == a[0];
        let k = choose|k: int| 0 <= k < a.len() && a[k] == b[0];
        if j > 0 {
            assert(f32_key(b[j]) <= f32_key(b[0]));
        }
        if k > 0 {
            assert(f32_key(a[k]) <= f32_key(a[0]));
        }
        assert(f32_key(a[0]) == f32_key(b[0]));
        assert(a[0] == b[0]);
        assert(a.remove(0) == a.drop_first());
        assert(b.remove(0) == b.drop_first());
        assert forall|x: u32, y: u32|
            a.drop_first().contains(x) && a.drop_first().contains(y) && f32_key(x) == f32_key(y)
            implies x == y by {
            let p = choose|p: int| 0 <= p < a.drop_first().len() && a.drop_first()[p] == x;
            let q = choose|q: int| 0 <= q < a.drop_first().len() && a.drop_first()[q] == y;
            assert(a.contains(a[p + 1]) && a.contains(a[q + 1]));
        }
        assert forall|i: int, j: int| #![trigger a.drop_first()[i], a.drop_first()[j]]
            0 <= i < j < a.drop_first().len() implies f32_key(a.drop_first()[j]) <= f32_key(a.drop_first()[i]) by {
            assert(a.drop_first()[i] == a[i + 1] && a.drop_first()[j] == a[j + 1]);
        }
        assert forall|i: int, j: int| #![trigger b.drop_first()[i], b.drop_first()[j]]
            0 <= i < j < b.drop_first().len() implies f32_key(b.drop_first()[j]) <= f32_key(b.drop_first()[i]) by {
            assert(b.drop_first()[i] == b[i + 1] && b.drop_first()[j] == b[j + 1]);
        }
        lemma_sorted_rates_unique(a.drop_first(), b.drop_first());
        assert(a == seq![a[0]] + a.drop_first());
        assert(b == seq![b[0]] + b.drop_first());
    }
}

/// Whether `a` lists its modes strictly from the largest resolution down.
pub open spec fn strictly_ordered(a: Seq<Mode>) -> bool {
    forall|i: int, j: int| #![trigger a[i], a[j]]
        0 <= i < j < a.len() ==> resolution_before(a[i].resolution, a[j].resolution)
}

/// Two mode lists, each strictly ordered, that offer the same resolutions
/// list the same resolutions in the same places.
proof fn lemma_ordered_resolutions_unique(a: Seq<Mode>, b: Seq<Mode>)
    requires
        strictly_ordered(a),
        strictly_ordered(b),
        forall|r: Size| resolution_offered(a, r) <==> resolution_offered(b, r),
    ensures
        a.len() == b.len(),
        forall|i: int| 0 <= i < a.len() ==> (#[trigger] a[i]).resolution == b[i].resolution,
    decreases a.len(),
{
    if a.len() == 0 {
        if b.len() > 0 {
            assert(resolution_offered(b, b[0].resolution));
        }
    } else if b.len() == 0 {
        assert(resolution_offered(a, a[0].resolution));
    } else {
        assert(resolution_offered(a, a[0].resolution));
        assert(resolution_offered(b, b[0].resolution));
        let j = choose|j: int| 0 <= j < b.len() && (#[trigger] b[j]).resolution == a[0].resolution;
        let k = choose|k: int| 0 <= k < a.len() && (#[trigger] a[k]).resolution == b[0].resolution;
        if j > 0 && k > 0 {
            assert(resolution_before(b[0].resolution, b[j].resolution));
            assert(resolution_before(a[0].resolution, a[k].resolution));
        }
        let a1 = a.drop_first();
        let b1 = b.drop_first();
        assert forall|i: int, l: int| #![trigger a1[i], a1[l]] 0 <= i < l < a1.len() implies resolution_before(
            a1[i].resolution,
            a1[l].resolution,
        ) by {
            assert(a1[i] == a[i + 1] && a1[l] == a[l + 1]);
        }
        assert forall|i: int, l: int| #![trigger b1[i], b1[l]] 0 <= i < l < b1.len() implies resolution_before(
            b1[i].resolution,
            b1[l].resolution,
        ) by {
            assert(b1[i] == b[i + 1] && b1[l] == b[l + 1]);
        }
        assert forall|r: Size| resolution_offered(a1, r) <==> resolution_offered(b1, r) by {
            if resolution_offered(a1, r) {
                let p = choose|p: int| 0 <= p < a1.len() && (#[trigger] a1[p]).resolution == r;
                assert(a[p + 1] == a1[p]);
                assert(resolution_before(a[0].resolution, a[p + 1].resolution));
                assert(resolution_offered(a, r));
                let q = choose|q: int| 0 <= q < b.len() && (#[trigger] b[q]).resolution == r;
                assert(q != 0);
                assert(b1[q - 1] == b[q]);
            }
            if resolution_offered(b1, r) {
                let p = choose|p: int| 0 <= p < b1.len() && (#[trigger] b1[p]).resolution == r;
                assert(b[p + 1] == b1[p]);
                assert(resolution_before(b[0].resolution, b[p + 1].resolution));
                assert(resolution_offered(b, r));
                let q = choose|q: int| 0 <= q < a.len() && (#[trigger] a[q]).resolution == r;
                assert(q != 0);
                assert(a1[q - 1] == a[q]);
            }
        }
        lemma_ordered_resolutions_unique(a1, b1);
        assert forall|i: int| 0 <= i < a.len() implies (#[trigger] a[i]).resolution == b[i].resolution by {
            if i > 0 {
                assert(a1[i - 1] == a[i] && b1[i - 1] == b[i]);
            }
        }
    }
}

proof fn lemma_has_resolution_perm(e1: Seq<ModeEntry>, e2: Seq<ModeEntry>, r: Size)
    requires
        e1.to_multiset() == e2.to_multiset(),
        has_resolution(e1, r),
    ensures
        has_resolution(e2, r),
{
    broadcast use vstd::seq_lib::group_to_multiset_ensures;

    let i = choose|i: int| 0 <= i < e1.len() && entry_resolution(#[trigger] e1[i]) == r;
    assert(e1.contains(e1[i]));
    assert(e1.to_multiset().count(e1[i]) > 0);
    assert(e2.to_multiset().count(e1[i]) > 0);
    let j = choose|j: int| 0 <= j < e2.len() && e2[j] == e1[i];
    assert(entry_resolution(e2[j]) == r);
}

/// Grouping does not depend on the order of the offered modes: two
/// groupings of the same entries, in any order, agree, where rates that
/// compare equal at one resolution are the same rate (see
/// `equal_rates_identical`).
pub proof fn law_group_modes_order_free(
    m1: Seq<Mode>,
    e1: Seq<ModeEntry>,
    m2: Seq<Mode>,
    e2: Seq<ModeEntry>,
)
    requires
        groups_modes(m1, e1),
        groups_modes(m2, e2),
        e1.to_multiset() == e2.to_multiset(),
        equal_rates_identical(e1),
    ensures
        m1.len() == m2.len(),
        forall|i: int| 0 <= i < m1.len() ==> (#[trigger] m1[i]).resolution == m2[i].resolution
            && m1[i].refresh_rate@ == m2[i].refresh_rate@,
{
    broadcast use vstd::seq_lib::group_to_multiset_ensures;

    // The same resolutions, in the same order.
    assert forall|r: Size| resolution_offered(m1, r) <==> resolution_offered(m2, r) by {
        if resolution_offered(m1, r) {
            let k = choose|k: int| 0 <= k < m1.len() && (#[trigger] m1[k]).resolution == r;
            assert(is_group_of(m1[k], e1));
            lemma_has_resolution_perm(e1, e2, r);
            let i = choose|i: int| 0 <= i < e2.len() && entry_resolution(#[trigger] e2[i]) == r;
            assert(resolution_offered(m2, entry_resolution(e2[i])));
        }
        if resolution_offered(m2, r) {
            let k = choose|k: int| 0 <= k < m2.len() && (#[trigger] m2[k]).resolution == r;
            assert(is_group_of(m2[k], e2));
            lemma_has_resolution_perm(e2, e1, r);
            let i = choose|i: int| 0 <= i < e1.len() && entry_resolution(#[trigger] e1[i]) == r;
            assert(resolution_offered(m1, entry_resolution(e1[i])));
        }
    }
    lemma_ordered_resolutions_unique(m1, m2);
    // The same rates at each resolution.
    assert forall|i: int| 0 <= i < m1.len() implies (#[trigger] m1[i]).resolution == m2[i].resolution
        && m1[i].refresh_rate@ == m2[i].refresh_rate@ by {
        let r = m1[i].resolution;
        assert(is_group_of(m1[i], e1));
        assert(is_group_of(m2[i], e2));
        let out1 = m1[i].refresh_rate@;
        let out2 = m2[i].refresh_rate@;
        lemma_stable_sort_multiset(out1, rates_at(e1, r));
        lemma_stable_sort_multiset(out2, rates_at(e2, r));
        assert forall|x: u32| rates_at(e1, r).to_multiset().count(x) == rates_at(e2, r).to_multiset().count(x) by {
            lemma_rates_at_count(e1, r, x);
            lemma_rates_at_count(e2, r, x);
        }
        assert(rates_at(e1, r).to_multiset() =~= rates_at(e2, r).to_multiset());
        assert forall|x: u32, y: u32| out1.contains(x) && out1.contains(y) && f32_key(x) == f32_key(y)
            implies x == y by {
            lemma_rates_at_count(e1, r, x);
            lemma_rates_at_count(e1, r, y);
            assert(out1.to_multiset().count(x) > 0);
            assert(out1.to_multiset().count(y) > 0);
            assert(e1.contains(entry_at(r, x)));
            assert(e1.contains(entry_at(r, y)));
            let p = choose|p: int| 0 <= p < e1.len() && e1[p] == entry_at(r, x);
            let q = choose|q: int| 0 <= q < e1.len() && e1[q] == entry_at(r, y);
            assert(entry_resolution(e1[p]) == entry_resolution(e1[q]));
        }
        lemma_sorted_rates_unique(out1, out2);
    }
}

} // verus!
