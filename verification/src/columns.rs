//! Table column widths: spread evenly, taken from the source's own widths,
//! and shrunk to fit the space a table has.

use vstd::prelude::*;
use vstd::arithmetic::div_mod::lemma_fundamental_div_mod;
use crate::document::TableBlock;

verus! {

/// The sum of column widths.
pub open spec fn sum_widths(s: Seq<usize>) -> nat
    decreases s.len(),
{
    if s.len() == 0 {
        0
    } else {
        s[0] as nat + sum_widths(s.skip(1))
    }
}

/// The sum of the source's column widths (twentieths of a point).
pub open spec fn sum_twips(s: Seq<u32>) -> nat
    decreases s.len(),
{
    if s.len() == 0 {
        0
    } else {
        s[0] as nat + sum_twips(s.skip(1))
    }
}

/// `a - b`, or 0 where `b` is larger.
pub open spec fn sat_sub(a: nat, b: nat) -> nat {
    if a >= b {
        (a - b) as nat
    } else {
        0
    }
}

/// `count` columns sharing what is left of `available` after three
/// columns of frame each: the remainder goes one by one to the first
/// columns, and no column is narrower than 3.
pub open spec fn distributed_widths(count: nat, available: nat) -> Seq<usize> {
    if count == 0 {
        Seq::empty()
    } else {
        spread(count, sat_sub(available, 3 * count))
    }
}

/// `usable` columns spread over `count` columns: the remainder of the
/// division goes one by one to the first columns; none below 3.
pub open spec fn spread(count: nat, usable: nat) -> Seq<usize> {
    let base = usable / count;
    let remainder = usable % count;
    Seq::new(count, |i: int| {
        let w = base + if i < remainder { 1nat } else { 0nat };
        if w >= 3 { w as usize } else { 3usize }
    })
}

/// The width a table's lines take: the columns, a space on each side of
/// each, and the borders.
pub open spec fn line_width_of(widths: Seq<usize>) -> nat {
    if widths.len() == 0 {
        0
    } else {
        sum_widths(widths) + 2 * widths.len() + 1
    }
}

/// A width scaled by `m / c`, rounded down, and at least 3.  The
/// quotient is exact: a product that is a whole number stays that number
/// (22 scaled by 15/22 is 15), where binary floating point, whose 15/22 is
/// a little short, would round it down to 14.
pub open spec fn scaled_width(w: usize, m: nat, c: nat) -> usize {
    let s = (w as nat * m) / c;
    if s >= 3 { s as usize } else { 3usize }
}

/// Takes `excess` columns from the widths, from the first column on, never
/// below 3.
pub open spec fn shave(ws: Seq<usize>, excess: nat) -> Seq<usize>
    decreases ws.len(),
{
    if ws.len() == 0 {
        ws
    } else {
        let room: nat = if ws[0] > 3 { (ws[0] - 3) as nat } else { 0 };
        let d: nat = if room < excess { room } else { excess };
        seq![(ws[0] - d) as usize] + shave(ws.skip(1), (excess - d) as nat)
    }
}

/// Widths shrunk to leave three columns of frame each within `available`:
/// unchanged where they fit, else scaled down in proportion and then cut
/// one column at a time from the first column on, none below 3.
pub open spec fn fitted_widths(ws: Seq<usize>, available: nat) -> Seq<usize> {
    let m = sat_sub(available, 3 * ws.len());
    let c = sum_widths(ws);
    if c <= m {
        ws
    } else {
        let scaled = ws.map_values(|w: usize| scaled_width(w, m, c));
        shave(scaled, sat_sub(sum_widths(scaled), m))
    }
}

/// The twips of column `i`, 1 where the source gives none.
pub open spec fn twips_at(cw: Seq<u32>, i: int) -> nat {
    if 0 <= i < cw.len() {
        cw[i] as nat
    } else {
        1
    }
}

/// Columns in proportion to the source's widths, rounded to the nearest
/// column (halves up), at least 3.  The proportion is exact: 7 of 20
/// twips over 90 columns is 31.5 and gives 32, where binary floating
/// point, whose 7/20 is a little short, gives 31.
pub open spec fn twips_widths(cw: Seq<u32>, count: nat, total: nat, available: nat) -> Seq<usize> {
    let usable = sat_sub(available, 3 * count);
    Seq::new(count, |i: int| {
        let w = (2 * twips_at(cw, i) * usable + total) / (2 * total);
        if w >= 3 { w as usize } else { 3usize }
    })
}

/// Whether some width is below 3.
pub open spec fn any_narrow(ws: Seq<usize>) -> bool {
    exists|i: int| 0 <= i < ws.len() && ws[i] < 3
}

/// The widths of a table's `count` columns within `usable` columns: from
/// the source's widths where it gives any, else evenly; then fitted.
pub open spec fn resolved_widths(cw: Seq<u32>, count: nat, usable: nat) -> Seq<usize> {
    let total = sum_twips(cw);
    let w0 = if total > 0 { twips_widths(cw, count, total, usable) } else { distributed_widths(count, usable) };
    let w1 = if any_narrow(w0) { distributed_widths(count, usable) } else { w0 };
    fitted_widths(w1, usable)
}

proof fn lemma_sum_widths_bound(s: Seq<usize>)
    ensures
        sum_widths(s) <= s.len() * 0xFFFF_FFFF_FFFF_FFFFnat,
    decreases s.len(),
{
    if s.len() > 0 {
        lemma_sum_widths_bound(s.skip(1));
    }
}

proof fn lemma_sum_twips_bound(s: Seq<u32>)
    ensures
        sum_twips(s) <= s.len() * 0xFFFF_FFFFnat,
    decreases s.len(),
{
    if s.len() > 0 {
        lemma_sum_twips_bound(s.skip(1));
    }
}

proof fn lemma_twips_element(s: Seq<u32>, i: int)
    requires
        0 <= i < s.len(),
    ensures
        s[i] as nat <= sum_twips(s),
    decreases s.len(),
{
    if i > 0 {
        lemma_twips_element(s.skip(1), i - 1);
    }
}

/// The sum of widths, exactly.
fn total_width(ws: &[usize]) -> (r: u128)
    ensures
        r == sum_widths(ws@),
{
    proof { lemma_sum_widths_bound(ws@); }
    let mut acc: u128 = 0;
    let mut i: usize = 0;
    assert(ws@.skip(0) =~= ws@);
    while i < ws.len()
        invariant
            i <= ws.len(),
            acc + sum_widths(ws@.skip(i as int)) == sum_widths(ws@),
            sum_widths(ws@) <= ws@.len() * 0xFFFF_FFFF_FFFF_FFFFnat,
        decreases ws.len() - i,
    {
        assert(ws@.skip(i as int).skip(1) =~= ws@.skip(i + 1));
        acc = acc + ws[i] as u128;
        i = i + 1;
    }
    assert(ws@.skip(i as int) =~= Seq::<usize>::empty());
    acc
}

/// The sum of the source's widths, exactly.
pub(crate) fn total_twips(cw: &[u32]) -> (r: u128)
    ensures
        r == sum_twips(cw@),
{
    proof { lemma_sum_twips_bound(cw@); }
    let mut acc: u128 = 0;
    let mut i: usize = 0;
    assert(cw@.skip(0) =~= cw@);
    while i < cw.len()
        invariant
            i <= cw.len(),
            acc + sum_twips(cw@.skip(i as int)) == sum_twips(cw@),
            sum_twips(cw@) <= cw@.len() * 0xFFFF_FFFFnat,
        decreases cw.len() - i,
    {
        assert(cw@.skip(i as int).skip(1) =~= cw@.skip(i + 1));
        acc = acc + cw[i] as u128;
        i = i + 1;
    }
    assert(cw@.skip(i as int) =~= Seq::<u32>::empty());
    acc
}

proof fn lemma_base_below_max(usable: nat, count: nat)
    requires
        count >= 2,
        usable <= usize::MAX,
    ensures
        usable / count < usize::MAX,
{
    assert(usable / count <= usable / 2) by {
        vstd::arithmetic::div_mod::lemma_div_is_ordered_by_denominator(usable as int, 2, count as int);
    }
}

/// Spreads `available_width` over `column_count` columns, keeping three
/// columns of frame for each; no column is narrower than 3.
pub fn distribute_width(column_count: usize, available_width: usize) -> (r: Vec<usize>)
    requires
        3 * column_count <= usize::MAX,
    ensures
        r@ == distributed_widths(column_count as nat, available_width as nat),
{
    let ghost target = distributed_widths(column_count as nat, available_width as nat);
    let mut r: Vec<usize> = Vec::new();
    if column_count == 0 {
        assert(r@ =~= target);
        return r;
    }
    let usable = available_width.saturating_sub(column_count * 3);
    let base = usable / column_count;
    let remainder = usable % column_count;
    let mut i: usize = 0;
    while i < column_count
        invariant
            i <= column_count,
            column_count > 0,
            usable == sat_sub(available_width as nat, 3 * column_count as nat),
            base == usable / column_count,
            remainder == usable % column_count,
            target == distributed_widths(column_count as nat, available_width as nat),
            r@ == target.take(i as int),
        decreases column_count - i,
    {
        let w = if i < remainder {
            proof { lemma_base_below_max(usable as nat, column_count as nat); }
            base + 1
        } else {
            base
        };
        let w = if w >= 3 { w } else { 3 };
        r.push(w);
        assert(r@ =~= target.take(i + 1));
        i = i + 1;
    }
    assert(target.take(i as int) =~= target);
    r
}

proof fn lemma_distributed_suffix(count: nat, usable: nat, k: nat)
    requires
        count > 0,
        k <= count,
        usable / count >= 3,
        usable <= usize::MAX,
    ensures
        ({
            let base = usable / count;
            let remainder = usable % count;
            sum_widths(spread(count, usable).skip(k as int)) == (count - k) * base + (if k < remainder { remainder - k } else { 0int })
        }),
    decreases count - k,
{
    let base = usable / count;
    let remainder = usable % count;
    let s = spread(count, usable);
    lemma_fundamental_div_mod(usable as int, count as int);
    assert(base * count <= usable) by (nonlinear_arith)
        requires
            usable == count * base + remainder,
            remainder >= 0,
    ;
    if k < count {
        lemma_distributed_suffix(count, usable, k + 1);
        assert(s.skip(k as int).skip(1) =~= s.skip(k as int + 1));
        assert((count - k) * base == base + (count - (k + 1)) * base) by (nonlinear_arith);
        if (k as int) < remainder {
            assert(base + 1 <= usable) by (nonlinear_arith)
                requires
                    base * count <= usable,
                    remainder < count,
                    0 <= k < remainder,
                    base >= 3,
            ;
        }
        assert(s[k as int] as nat == base + if (k as int) < remainder { 1nat } else { 0nat });
        assert(s.skip(k as int)[0] == s[k as int]);
        assert(sum_widths(s.skip(k as int)) == s[k as int] as nat + sum_widths(s.skip(k as int + 1)));

    } else {
        assert(s.skip(k as int) =~= Seq::<usize>::empty());
        assert((count - k) * base == 0) by (nonlinear_arith)
            requires
                k == count,
        ;
    }
}

/// Where every column gets at least 3, the spread widths use up exactly
/// the space left after the frame.
pub proof fn law_distributed_widths_use_the_space(count: usize, available: usize)
    requires
        count > 0,
        sat_sub(available as nat, 3 * count as nat) >= 3 * count,
    ensures
        sum_widths(distributed_widths(count as nat, available as nat)) == sat_sub(available as nat, 3 * count as nat),
        distributed_widths(count as nat, available as nat).len() == count,
{
    let count = count as nat;
    let available = available as nat;
    let usable = sat_sub(available, 3 * count);
    lemma_fundamental_div_mod(usable as int, count as int);
    assert(usable / count >= 3) by (nonlinear_arith)
        requires
            usable >= 3 * count,
            usable == count * (usable / count) + usable % count,
            usable % count < count,
            count > 0,
    ;
    lemma_distributed_suffix(count, usable, 0);
    assert(distributed_widths(count, available).skip(0) =~= distributed_widths(count, available));
    assert(count * (usable / count) == (count - 0) * (usable / count));
}

/// The width of a table's lines for the given column widths.
pub fn table_line_width(widths: &[usize]) -> (r: usize)
    requires
        line_width_of(widths@) <= usize::MAX,
    ensures
        r == line_width_of(widths@),
{
    if widths.len() == 0 {
        return 0;
    }
    let total = total_width(widths);
    (total + 2 * widths.len() as u128 + 1) as usize
}

proof fn lemma_scaled_le(w: usize, m: nat, c: nat)
    requires
        m < c,
    ensures
        (w as nat * m) / c <= w,
{
    lemma_fundamental_div_mod((w as nat * m) as int, c as int);
    let q = (w as nat * m) / c;
    let r = (w as nat * m) % c;
    assert(q <= w) by (nonlinear_arith)
        requires
            w * m == c * q + r,
            0 <= r,
            m < c,
            0 <= w,
            0 <= q,
    ;
}

proof fn lemma_shave_step(ws: Seq<usize>, i: int, excess: nat)
    requires
        0 <= i < ws.len(),
    ensures
        ({
            let w = ws[i];
            let room: nat = if w > 3 { (w - 3) as nat } else { 0 };
            let d: nat = if room < excess { room } else { excess };
            shave(ws.skip(i), excess) == seq![(w - d) as usize] + shave(ws.skip(i + 1), (excess - d) as nat)
        }),
{
    assert(ws.skip(i).skip(1) =~= ws.skip(i + 1));
    assert(ws.skip(i)[0] == ws[i]);
}

proof fn lemma_shave_len(ws: Seq<usize>, excess: nat)
    ensures
        shave(ws, excess).len() == ws.len(),
    decreases ws.len(),
{
    if ws.len() > 0 {
        let room: nat = if ws[0] > 3 { (ws[0] - 3) as nat } else { 0 };
        let d: nat = if room < excess { room } else { excess };
        lemma_shave_len(ws.skip(1), (excess - d) as nat);
    }
}

proof fn lemma_fitted_len(ws: Seq<usize>, available: nat)
    ensures
        fitted_widths(ws, available).len() == ws.len(),
{
    let m = sat_sub(available, 3 * ws.len());
    let c = sum_widths(ws);
    let scaled = ws.map_values(|w: usize| scaled_width(w, m, c));
    lemma_shave_len(scaled, sat_sub(sum_widths(scaled), m));
}

/// Shrinks column widths so that they and three columns of frame each fit
/// in `available_width`: widths that fit are kept; otherwise each is
/// scaled down in proportion (rounded down, at least 3) and columns are
/// then taken one at a time from the first column that is wider than 3
/// until they fit or every column is 3 wide.  The proportion is taken
/// exactly, in integers, not in binary floating point: `[22]` in 18
/// columns gives `[15]`.
pub fn fit_column_widths(widths: Vec<usize>, available_width: usize) -> (r: Vec<usize>)
    requires
        3 * widths@.len() <= usize::MAX,
    ensures
        r@ == fitted_widths(widths@, available_width as nat),
{
    let max_inner = available_width.saturating_sub(widths.len() * 3);
    let current = total_width(widths.as_slice());
    if current <= max_inner as u128 {
        return widths;
    }
    let ghost m = max_inner as nat;
    let ghost c = current as nat;
    let ghost sc = widths@.map_values(|w: usize| scaled_width(w, m, c));
    let mut scaled: Vec<usize> = Vec::new();
    let mut i: usize = 0;
    while i < widths.len()
        invariant
            i <= widths.len(),
            m == max_inner as nat,
            c == current as nat,
            m < c,
            sc == widths@.map_values(|w: usize| scaled_width(w, m, c)),
            scaled@ == sc.take(i as int),
        decreases widths.len() - i,
    {
        let w = widths[i];
        proof {
            lemma_scaled_le(w, m, c);
            assert(w as nat * m <= 0xFFFF_FFFF_FFFF_FFFFnat * 0xFFFF_FFFF_FFFF_FFFFnat) by (nonlinear_arith)
                requires
                    w <= 0xFFFF_FFFF_FFFF_FFFFnat,
                    m <= 0xFFFF_FFFF_FFFF_FFFFnat,
            ;
        }
        let s = (w as u128 * max_inner as u128) / current;
        let nw: usize = if s >= 3 { s as usize } else { 3 };
        scaled.push(nw);
        assert(scaled@ =~= sc.take(i + 1));
        i = i + 1;
    }
    assert(sc.take(i as int) =~= sc);
    let scaled_total = total_width(scaled.as_slice());
    let ghost e0 = sat_sub(scaled_total as nat, m);
    let mut excess: u128 = if scaled_total > max_inner as u128 { scaled_total - max_inner as u128 } else { 0 };
    let mut out: Vec<usize> = Vec::new();
    let mut j: usize = 0;
    assert(sc.skip(0) =~= sc);
    assert(out@ + shave(sc.skip(0), excess as nat) =~= shave(sc, e0));
    while j < scaled.len()
        invariant
            j <= scaled.len(),
            scaled@ == sc,
            out@ + shave(sc.skip(j as int), excess as nat) == shave(sc, e0),
        decreases scaled.len() - j,
    {
        let w = scaled[j];
        proof { lemma_shave_step(sc, j as int, excess as nat); }
        let room: usize = if w > 3 { w - 3 } else { 0 };
        let d: usize = if (room as u128) < excess { room } else { excess as usize };
        let ghost before = out@;
        out.push(w - d);
        excess = excess - d as u128;
        assert(out@ + shave(sc.skip(j + 1), excess as nat) =~= before + (seq![(w - d) as usize] + shave(sc.skip(j + 1), excess as nat)));
        j = j + 1;
    }
    assert(sc.skip(j as int) =~= Seq::<usize>::empty());
    assert(out@ =~= out@ + shave(sc.skip(j as int), excess as nat));
    out
}

proof fn lemma_rounded_share(t: nat, total: nat, usable: nat)
    requires
        total > 0,
        t <= total,
    ensures
        (2 * t * usable + total) / (2 * total) <= usable,
{
    let x = 2 * t * usable + total;
    let d = 2 * total;
    lemma_fundamental_div_mod(x as int, d as int);
    let q = x / d;
    let r = x % d;
    assert(q <= usable) by (nonlinear_arith)
        requires
            x == d * q + r,
            0 <= r,
            x == 2 * t * usable + total,
            d == 2 * total,
            t <= total,
            total > 0,
            q >= 0,
    ;
}

/// Column widths in proportion to the source's widths of the table, whose
/// sum is `total_twips`; columns past those the source gives count 1.
/// The proportion is taken exactly, in integers, not in binary floating
/// point: a share that comes to a half exactly rounds up (7 of 20 twips
/// over 90 columns gives 32).
fn table_widths_from_twips(table: &TableBlock, column_count: usize, total_twips: u32, available_width: usize) -> (r: Vec<usize>)
    requires
        total_twips > 0,
        total_twips as nat == sum_twips(table.column_widths@),
        3 * column_count <= usize::MAX,
    ensures
        r@ == twips_widths(table.column_widths@, column_count as nat, total_twips as nat, available_width as nat),
{
    let ghost target = twips_widths(table.column_widths@, column_count as nat, total_twips as nat, available_width as nat);
    let usable = available_width.saturating_sub(column_count * 3);
    let mut r: Vec<usize> = Vec::new();
    let mut i: usize = 0;
    while i < column_count
        invariant
            i <= column_count,
            total_twips > 0,
            total_twips as nat == sum_twips(table.column_widths@),
            usable == sat_sub(available_width as nat, 3 * column_count as nat),
            target == twips_widths(table.column_widths@, column_count as nat, total_twips as nat, available_width as nat),
            r@ == target.take(i as int),
        decreases column_count - i,
    {
        let twips: u32 = if i < table.column_widths.len() { table.column_widths[i] } else { 1 };
        proof {
            if (i as int) < table.column_widths@.len() {
                lemma_twips_element(table.column_widths@, i as int);
            }
            assert(twips as nat == twips_at(table.column_widths@, i as int));
            lemma_rounded_share(twips as nat, total_twips as nat, usable as nat);
            assert(2 * twips * usable <= 2 * 0xFFFF_FFFFnat * 0xFFFF_FFFF_FFFF_FFFFnat) by (nonlinear_arith)
                requires
                    twips <= 0xFFFF_FFFFnat,
                    usable <= 0xFFFF_FFFF_FFFF_FFFFnat,
            ;
        }
        let num: u128 = 2 * twips as u128 * usable as u128 + total_twips as u128;
        let w = num / (2 * total_twips as u128);
        let w: usize = if w >= 3 { w as usize } else { 3 };
        r.push(w);
        assert(r@ =~= target.take(i + 1));
        i = i + 1;
    }
    assert(target.take(i as int) =~= target);
    r
}

fn has_narrow_column(ws: &Vec<usize>) -> (r: bool)
    ensures
        r == any_narrow(ws@),
{
    let mut i: usize = 0;
    while i < ws.len()
        invariant
            i <= ws.len(),
            forall|k: int| 0 <= k < i ==> ws@[k] >= 3,
        decreases ws.len() - i,
    {
        if ws[i] < 3 {
            return true;
        }
        i = i + 1;
    }
    false
}

/// The widths of the table's `column_count` columns within `usable_width`
/// columns.
pub fn resolve_column_widths(table: &TableBlock, column_count: usize, usable_width: usize) -> (r: Vec<usize>)
    requires
        3 * column_count <= usize::MAX,
        sum_twips(table.column_widths@) <= u32::MAX,
    ensures
        r@ == resolved_widths(table.column_widths@, column_count as nat, usable_width as nat),
        r@.len() == column_count,
{
    let total = total_twips(table.column_widths.as_slice());
    let total_twips = total as u32;
    let mut widths = if total_twips > 0 {
        table_widths_from_twips(table, column_count, total_twips, usable_width)
    } else {
        distribute_width(column_count, usable_width)
    };
    if has_narrow_column(&widths) {
        widths = distribute_width(column_count, usable_width);
    }
    let ghost w1 = widths@;
    let r = fit_column_widths(widths, usable_width);
    proof { lemma_fitted_len(w1, usable_width as nat); }
    r
}

proof fn lemma_shave_sum(s: Seq<usize>, e: nat)
    requires
        forall|i: int| 0 <= i < s.len() ==> s[i] >= 3,
        sum_widths(s) >= 3 * s.len(),
    ensures
        sum_widths(shave(s, e)) + (if e < sum_widths(s) - 3 * s.len() { e as int } else { sum_widths(s) - 3 * s.len() }) == sum_widths(s),
        forall|i: int| 0 <= i < shave(s, e).len() ==> shave(s, e)[i] >= 3,
        shave(s, e).len() == s.len(),
    decreases s.len(),
{
    if s.len() > 0 {
        let room: nat = if s[0] > 3 { (s[0] - 3) as nat } else { 0 };
        let d: nat = if room < e { room } else { e };
        let rest = s.skip(1);
        assert forall|i: int| 0 <= i < rest.len() implies rest[i] >= 3 by {
            assert(rest[i] == s[i + 1]);
        }
        lemma_sum_at_least(rest);
        lemma_shave_sum(rest, (e - d) as nat);
        let sh = shave(s, e);
        assert(sh == seq![(s[0] - d) as usize] + shave(rest, (e - d) as nat));
        assert(sh.skip(1) =~= shave(rest, (e - d) as nat));
        assert forall|i: int| 0 <= i < sh.len() implies sh[i] >= 3 by {
            if i > 0 {
                assert(sh[i] == shave(rest, (e - d) as nat)[i - 1]);
            }
        }
    }
}

proof fn lemma_sum_at_least(s: Seq<usize>)
    requires
        forall|i: int| 0 <= i < s.len() ==> s[i] >= 3,
    ensures
        sum_widths(s) >= 3 * s.len(),
    decreases s.len(),
{
    if s.len() > 0 {
        let rest = s.skip(1);
        assert forall|i: int| 0 <= i < rest.len() implies rest[i] >= 3 by {
            assert(rest[i] == s[i + 1]);
        }
        lemma_sum_at_least(rest);
    }
}

/// Fitted widths take at most what is left of the available width after
/// three columns of frame each, or three columns each where not even that
/// is left; so where columns of width 3 would fit, the fitted widths fit.
/// Shrunk widths are never below 3.
pub proof fn law_fitted_widths_fit(ws: Seq<usize>, available: usize)
    ensures
        ({
            let m = sat_sub(available as nat, 3 * ws.len());
            let s = sum_widths(fitted_widths(ws, available as nat));
            &&& s <= m || s <= 3 * ws.len()
            &&& 3 * ws.len() <= m ==> s <= m
        }),
        fitted_widths(ws, available as nat).len() == ws.len(),
        sum_widths(ws) > sat_sub(available as nat, 3 * ws.len()) ==>
            forall|i: int| 0 <= i < ws.len() ==> fitted_widths(ws, available as nat)[i] >= 3,
{
    lemma_fitted_len(ws, available as nat);
    let m = sat_sub(available as nat, 3 * ws.len());
    let c = sum_widths(ws);
    if c > m {
        let sc = ws.map_values(|w: usize| scaled_width(w, m, c));
        assert forall|i: int| 0 <= i < sc.len() implies sc[i] >= 3 by {
            assert(sc[i] == scaled_width(ws[i], m, c));
            lemma_scaled_le(ws[i], m, c);
        }
        lemma_sum_at_least(sc);
        lemma_shave_sum(sc, sat_sub(sum_widths(sc), m));
    }
}

/// A width is at most the sum of the widths.
pub proof fn lemma_width_le_sum(s: Seq<usize>, i: int)
    requires
        0 <= i < s.len(),
    ensures
        s[i] as nat <= sum_widths(s),
    decreases s.len(),
{
    if i > 0 {
        lemma_width_le_sum(s.skip(1), i - 1);
    }
}

proof fn lemma_shave_le(s: Seq<usize>, e: nat)
    ensures
        shave(s, e).len() == s.len(),
        forall|i: int| 0 <= i < s.len() ==> #[trigger] shave(s, e)[i] <= s[i],
    decreases s.len(),
{
    if s.len() > 0 {
        let room: nat = if s[0] > 3 { (s[0] - 3) as nat } else { 0 };
        let d: nat = if room < e { room } else { e };
        let rest = s.skip(1);
        lemma_shave_le(rest, (e - d) as nat);
        let sh = shave(s, e);
        assert forall|i: int| 0 <= i < s.len() implies #[trigger] shave(s, e)[i] <= s[i] by {
            if i > 0 {
                assert(sh[i] == shave(rest, (e - d) as nat)[i - 1]);
                assert(rest[i - 1] == s[i]);
            }
        }
    }
}

proof fn lemma_all_three(s: Seq<usize>)
    requires
        forall|i: int| 0 <= i < s.len() ==> s[i] >= 3,
        sum_widths(s) == 3 * s.len(),
    ensures
        forall|i: int| 0 <= i < s.len() ==> s[i] == 3,
    decreases s.len(),
{
    if s.len() > 0 {
        let rest = s.skip(1);
        assert forall|i: int| 0 <= i < rest.len() implies rest[i] >= 3 by {
            assert(rest[i] == s[i + 1]);
        }
        lemma_sum_at_least(rest);
        lemma_all_three(rest);
        assert forall|i: int| 0 <= i < s.len() implies s[i] == 3 by {
            if i > 0 {
                assert(rest[i - 1] == s[i]);
            }
        }
    }
}

/// For widths of at least 3: widths that fit are kept; otherwise each
/// fitted width lies between 3 and the width it came from, and either the
/// fitted widths fit or every one of them is 3.
pub proof fn law_fitted_widths_bounds(ws: Seq<usize>, available: usize)
    requires
        forall|i: int| 0 <= i < ws.len() ==> ws[i] >= 3,
    ensures
        fitted_widths(ws, available as nat).len() == ws.len(),
        sum_widths(ws) <= sat_sub(available as nat, 3 * ws.len()) ==> fitted_widths(ws, available as nat) == ws,
        sum_widths(ws) > sat_sub(available as nat, 3 * ws.len()) ==> {
            let r = fitted_widths(ws, available as nat);
            &&& forall|i: int| 0 <= i < ws.len() ==> 3 <= #[trigger] r[i] <= ws[i]
            &&& (sum_widths(r) <= sat_sub(available as nat, 3 * ws.len())
                || forall|i: int| 0 <= i < ws.len() ==> #[trigger] r[i] == 3)
        },
{
    lemma_fitted_len(ws, available as nat);
    let m = sat_sub(available as nat, 3 * ws.len());
    let c = sum_widths(ws);
    if c > m {
        let sc = ws.map_values(|w: usize| scaled_width(w, m, c));
        assert forall|i: int| 0 <= i < sc.len() implies 3 <= #[trigger] sc[i] <= ws[i] by {
            assert(sc[i] == scaled_width(ws[i], m, c));
            lemma_scaled_le(ws[i], m, c);
        }
        lemma_sum_at_least(sc);
        let e = sat_sub(sum_widths(sc), m);
        lemma_shave_sum(sc, e);
        lemma_shave_le(sc, e);
        let r = shave(sc, e);
        assert(r == fitted_widths(ws, available as nat));
        assert forall|i: int| 0 <= i < ws.len() implies 3 <= #[trigger] r[i] <= ws[i] by {
            assert(r[i] <= sc[i]);
        }
        if !(sum_widths(r) <= m) {
            lemma_all_three(r);
        }
    }
}

} // verus!
