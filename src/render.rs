use vstd::prelude::*;
use vstd::string::*;

use crate::entry::{Entry, Stamp};
use crate::index::Listing;
use crate::text::{dec, decimal, pad_right, pad_zero, padded, zero_padded};

verus! {

/// Which lister a table belongs to: directories show their child count,
/// files their size.
#[derive(Clone, Copy, Debug, PartialEq, Eq, Structural)]
pub enum Lister {
    Folders,
    Files,
}

/// `1024` to the power `k`.
pub open spec fn unit_scale(k: nat) -> nat
    decreases k,
{
    if k == 0 {
        1
    } else {
        1024 * unit_scale((k - 1) as nat)
    }
}

/// The unit a byte count is shown in: 0 for bytes, then KB, MB, GB, TB.
pub open spec fn size_unit(size: nat) -> nat {
    if size >= unit_scale(4) {
        4
    } else if size >= unit_scale(3) {
        3
    } else if size >= unit_scale(2) {
        2
    } else if size >= unit_scale(1) {
        1
    } else {
        0
    }
}

/// The name of unit `k`.
pub open spec fn unit_name(k: nat) -> Seq<char> {
    if k == 0 {
        seq!['B']
    } else if k == 1 {
        seq!['K', 'B']
    } else if k == 2 {
        seq!['M', 'B']
    } else if k == 3 {
        seq!['G', 'B']
    } else {
        seq!['T', 'B']
    }
}

/// `size / 1024^k` in hundredths, rounded to nearest, ties to even.
pub open spec fn hundredths(size: nat, k: nat) -> nat {
    let q = (size * 100) / unit_scale(k);
    let r = (size * 100) % unit_scale(k);
    if 2 * r > unit_scale(k) || (2 * r == unit_scale(k) && q % 2 == 1) {
        q + 1
    } else {
        q
    }
}

/// A byte count for people: plain bytes below 1024, else the value in the
/// largest unit it reaches, with two decimals.
pub open spec fn size_text(size: nat) -> Seq<char> {
    let k = size_unit(size);
    if k == 0 {
        dec(size) + seq![' ', 'B']
    } else {
        let h = hundredths(size, k);
        dec(h / 100) + seq!['.'] + zero_padded(dec(h % 100), 2) + seq![' '] + unit_name(k)
    }
}

/// A year as `YYYY`; outside 0 to 9999 with a sign, the digits padded to 4.
pub open spec fn year_text(y: int) -> Seq<char> {
    if 0 <= y <= 9999 {
        zero_padded(dec(y as nat), 4)
    } else if y < 0 {
        seq!['-'] + zero_padded(dec((-y) as nat), 4)
    } else {
        seq!['+'] + dec(y as nat)
    }
}

/// A clock or calendar field as two digits.
pub open spec fn two_digits(n: nat) -> Seq<char> {
    zero_padded(dec(n), 2)
}

/// The local time of `s` as `YYYY-MM-DD HH:MM:SS`.
pub open spec fn stamp_text(s: Stamp) -> Seq<char> {
    year_text(s.year as int) + seq!['-'] + two_digits(s.month as nat) + seq!['-'] + two_digits(
        s.day as nat,
    ) + seq![' '] + two_digits(s.hour as nat) + seq![':'] + two_digits(s.minute as nat)
        + seq![':'] + two_digits(s.second as nat)
}

proof fn lemma_unit_scales()
    ensures
        unit_scale(1) == 1024,
        unit_scale(2) == 1048576,
        unit_scale(3) == 1073741824,
        unit_scale(4) == 1099511627776,
{
    assert(unit_scale(0) == 1);
    assert(unit_scale(1) == 1024);
    assert(unit_scale(2) == 1048576);
    assert(unit_scale(3) == 1073741824);
    assert(unit_scale(4) == 1099511627776);
}

fn scale_of(k: u64) -> (r: u128)
    requires
        1 <= k <= 4,
    ensures
        r == unit_scale(k as nat),
{
    proof {
        lemma_unit_scales();
    }
    match k {
        1 => 1024,
        2 => 1048576,
        3 => 1073741824,
        _ => 1099511627776,
    }
}

fn unit_label(k: u64) -> (r: String)
    requires
        k <= 4,
    ensures
        r@ == unit_name(k as nat),
{
    proof {
        reveal_strlit("B");
        reveal_strlit("KB");
        reveal_strlit("MB");
        reveal_strlit("GB");
        reveal_strlit("TB");
    }
    let s = match k {
        0 => "B",
        1 => "KB",
        2 => "MB",
        3 => "GB",
        _ => "TB",
    };
    let r = String::from_str(s);
    assert(r@ =~= unit_name(k as nat));
    r
}

/// A byte count for people, as in `size_text`: `512 B`, `1.50 KB`.
pub fn readable_size(size: u64) -> (r: String)
    ensures
        r@ == size_text(size as nat),
{
    proof {
        reveal_strlit(" ");
        reveal_strlit(".");
    }
    let k: u64 = if size >= 1099511627776 {
        4
    } else if size >= 1073741824 {
        3
    } else if size >= 1048576 {
        2
    } else if size >= 1024 {
        1
    } else {
        0
    };
    proof {
        lemma_unit_scales();
    }
    assert(k == size_unit(size as nat));
    let mut r: String;
    if k == 0 {
        r = decimal(size);
        r.append(" ");
        r.append(unit_label(0).as_str());
        assert(r@ =~= size_text(size as nat));
    } else {
        let d = scale_of(k);
        let x: u128 = size as u128 * 100;
        let q = x / d;
        let rem = x % d;
        let h: u128 = if 2 * rem > d || (2 * rem == d && q % 2 == 1) {
            q + 1
        } else {
            q
        };
        assert(h == hundredths(size as nat, k as nat));
        assert(q <= x / 1024) by (nonlinear_arith)
            requires
                q == x / d,
                d >= 1024,
        ;
        assert(h < 0x1_0000_0000_0000_0000u128);
        let h64 = h as u64;
        r = decimal(h64 / 100);
        r.append(".");
        let frac = pad_zero(decimal(h64 % 100), 2);
        r.append(frac.as_str());
        r.append(" ");
        r.append(unit_label(k).as_str());
        assert(r@ =~= size_text(size as nat));
    }
    r
}

fn two_digit_text(n: u32) -> (r: String)
    ensures
        r@ == two_digits(n as nat),
{
    pad_zero(decimal(n as u64), 2)
}

/// The local time of `s` as `YYYY-MM-DD HH:MM:SS`.
pub fn format_stamp(s: &Stamp) -> (r: String)
    ensures
        r@ == stamp_text(*s),
{
    proof {
        reveal_strlit("-");
        reveal_strlit("+");
        reveal_strlit(" ");
        reveal_strlit(":");
    }
    let y: i64 = s.year as i64;
    let mut r: String;
    if 0 <= y && y <= 9999 {
        r = pad_zero(decimal(y as u64), 4);
    } else if y < 0 {
        r = String::from_str("-");
        r.append(pad_zero(decimal((-y) as u64), 4).as_str());
    } else {
        r = String::from_str("+");
        r.append(decimal(y as u64).as_str());
    }
    assert(r@ =~= year_text(s.year as int));
    r.append("-");
    r.append(two_digit_text(s.month).as_str());
    r.append("-");
    r.append(two_digit_text(s.day).as_str());
    r.append(" ");
    r.append(two_digit_text(s.hour).as_str());
    r.append(":");
    r.append(two_digit_text(s.minute).as_str());
    r.append(":");
    r.append(two_digit_text(s.second).as_str());
    assert(r@ =~= stamp_text(*s));
    r
}

/// The longest name in `s`, in characters (0 for none).
pub open spec fn widest_name(s: Seq<Entry>) -> nat
    decreases s.len(),
{
    if s.len() == 0 {
        0
    } else if s.last().name@.len() > widest_name(s.drop_last()) {
        s.last().name@.len()
    } else {
        widest_name(s.drop_last())
    }
}

/// What the metric column shows for `m`: the child count of a directory, the
/// size of a file.
pub open spec fn metric_text(lister: Lister, m: u64) -> Seq<char> {
    match lister {
        Lister::Folders => dec(m as nat),
        Lister::Files => size_text(m as nat),
    }
}

/// The longest metric text of `s`, in characters (0 for none).
pub open spec fn widest_metric(lister: Lister, s: Seq<Entry>) -> nat
    decreases s.len(),
{
    if s.len() == 0 {
        0
    } else if metric_text(lister, s.last().metric).len() > widest_metric(lister, s.drop_last()) {
        metric_text(lister, s.last().metric).len()
    } else {
        widest_metric(lister, s.drop_last())
    }
}

/// The label of the name column.
pub open spec fn name_label(lister: Lister) -> Seq<char> {
    match lister {
        Lister::Folders => "Folder Name"@,
        Lister::Files => "File Name"@,
    }
}

/// The larger of `a` and `b`.
pub open spec fn larger(a: nat, b: nat) -> nat {
    if a >= b {
        a
    } else {
        b
    }
}

/// The width of the name column of a table of `t`: its label, or the
/// longest name where that is longer.
pub open spec fn name_width(lister: Lister, t: Seq<Entry>) -> nat {
    larger(name_label(lister).len(), widest_name(t))
}

/// The width of the metric texts in a table of `t`: the longest of them; for
/// files, at least the length of the `Size` label.
pub open spec fn metric_width(lister: Lister, t: Seq<Entry>) -> nat {
    match lister {
        Lister::Folders => widest_metric(lister, t),
        Lister::Files => larger("Size"@.len(), widest_metric(lister, t)),
    }
}

/// The header of a table whose name column takes `nw` and whose metric texts
/// take `mw` characters.
pub open spec fn header_line(lister: Lister, minimal: bool, nw: nat, mw: nat) -> Seq<char> {
    if minimal {
        padded("S.n"@, 5) + " | "@ + padded(name_label(lister), nw) + " |"@
    } else {
        padded("Index"@, 5) + " | "@ + padded(name_label(lister), nw) + " | "@ + match lister {
            Lister::Folders => padded("Items"@, mw + 6),
            Lister::Files => padded("Size"@, mw),
        } + " | "@ + "Modified At"@
    }
}

/// The row of `e` in a table whose name column takes `nw` and whose metric
/// texts take `mw` characters.
pub open spec fn row_line(lister: Lister, minimal: bool, e: Entry, nw: nat, mw: nat) -> Seq<
    char,
> {
    let head = padded(dec(e.position as nat), 5) + " | "@ + padded(e.name@, nw);
    if minimal {
        head + " |"@
    } else {
        head + " | "@ + match lister {
            Lister::Folders => padded(dec(e.metric as nat), mw) + " items"@,
            Lister::Files => padded(size_text(e.metric as nat), mw),
        } + " | "@ + stamp_text(e.modified)
    }
}

/// `lines` is the table of `t`: a header, then one row per entry in order,
/// with the name and metric columns as wide as `name_width` and
/// `metric_width` say.
pub open spec fn table_of(lines: Seq<String>, t: Seq<Entry>, lister: Lister, minimal: bool) -> bool {
    &&& lines.len() == t.len() + 1
    &&& lines[0]@ == header_line(lister, minimal, name_width(lister, t), metric_width(lister, t))
    &&& forall|i: int|
        0 <= i < t.len() ==> (#[trigger] lines[i + 1])@ == row_line(
            lister,
            minimal,
            t[i],
            name_width(lister, t),
            metric_width(lister, t),
        )
}

fn metric_string(lister: Lister, m: u64) -> (r: String)
    ensures
        r@ == metric_text(lister, m),
{
    match lister {
        Lister::Folders => decimal(m),
        Lister::Files => readable_size(m),
    }
}

fn column_widths(t: &Vec<Entry>, lister: Lister) -> (r: (usize, usize))
    ensures
        r.0 == name_width(lister, t@),
        r.1 == metric_width(lister, t@),
{
    let mut nw: usize = 0;
    let mut mw: usize = 0;
    let mut i: usize = 0;
    assert(t@.subrange(0, 0) =~= Seq::<Entry>::empty());
    while i < t.len()
        invariant
            i <= t@.len(),
            nw == widest_name(t@.subrange(0, i as int)),
            mw == widest_metric(lister, t@.subrange(0, i as int)),
        decreases t.len() - i,
    {
        assert(t@.subrange(0, i + 1).drop_last() =~= t@.subrange(0, i as int));
        assert(t@.subrange(0, i + 1).last() == t@[i as int]);
        let n = t[i].name.as_str().unicode_len();
        if n > nw {
            nw = n;
        }
        let m = metric_string(lister, t[i].metric).as_str().unicode_len();
        if m > mw {
            mw = m;
        }
        i = i + 1;
    }
    assert(t@.subrange(0, t@.len() as int) =~= t@);
    let label = match lister {
        Lister::Folders => "Folder Name",
        Lister::Files => "File Name",
    };
    let ll = label.unicode_len();
    if ll > nw {
        nw = ll;
    }
    match lister {
        Lister::Folders => {},
        Lister::Files => {
            let sl = "Size".unicode_len();
            if sl > mw {
                mw = sl;
            }
        },
    }
    (nw, mw)
}

fn header_text(lister: Lister, minimal: bool, nw: usize, mw: usize) -> (r: String)
    requires
        lister == Lister::Folders ==> mw + 6 <= usize::MAX,
    ensures
        r@ == header_line(lister, minimal, nw as nat, mw as nat),
{
    let label = match lister {
        Lister::Folders => "Folder Name",
        Lister::Files => "File Name",
    };
    if minimal {
        let mut r = pad_right(String::from_str("S.n"), 5);
        r.append(" | ");
        r.append(pad_right(String::from_str(label), nw).as_str());
        r.append(" |");
        assert(r@ =~= header_line(lister, minimal, nw as nat, mw as nat));
        r
    } else {
        let mut r = pad_right(String::from_str("Index"), 5);
        r.append(" | ");
        r.append(pad_right(String::from_str(label), nw).as_str());
        r.append(" | ");
        let metric = match lister {
            Lister::Folders => pad_right(String::from_str("Items"), mw + 6),
            Lister::Files => pad_right(String::from_str("Size"), mw),
        };
        r.append(metric.as_str());
        r.append(" | ");
        r.append("Modified At");
        assert(r@ =~= header_line(lister, minimal, nw as nat, mw as nat));
        r
    }
}

fn row_text(lister: Lister, minimal: bool, e: &Entry, nw: usize, mw: usize) -> (r: String)
    ensures
        r@ == row_line(lister, minimal, *e, nw as nat, mw as nat),
{
    let mut r = pad_right(decimal(e.position as u64), 5);
    r.append(" | ");
    r.append(pad_right(e.name.clone(), nw).as_str());
    if minimal {
        r.append(" |");
    } else {
        r.append(" | ");
        match lister {
            Lister::Folders => {
                r.append(pad_right(decimal(e.metric), mw).as_str());
                r.append(" items");
            },
            Lister::Files => {
                r.append(pad_right(readable_size(e.metric), mw).as_str());
            },
        }
        r.append(" | ");
        r.append(format_stamp(&e.modified).as_str());
    }
    assert(r@ =~= row_line(lister, minimal, *e, nw as nat, mw as nat));
    r
}

/// The lines a listing prints: the selected name alone, one empty line for
/// nothing, or the table of the rows.
pub fn render_lines(listing: &Listing, lister: Lister, minimal: bool) -> (r: Vec<String>)
    ensures
        match listing {
            Listing::Selected(name) => r@.len() == 1 && r@[0]@ == name@,
            Listing::Nothing => r@.len() == 1 && r@[0]@.len() == 0,
            Listing::Table(t) => table_of(r@, t@, lister, minimal),
        },
{
    match listing {
        Listing::Selected(name) => {
            let mut r: Vec<String> = Vec::new();
            r.push(name.clone());
            r
        },
        Listing::Nothing => {
            let mut r: Vec<String> = Vec::new();
            r.push(String::new());
            r
        },
        Listing::Table(t) => {
            let (nw, mw) = column_widths(t, lister);
            proof {
                lemma_widest_metric_bound(t@);
            }
            let mut r: Vec<String> = Vec::new();
            r.push(header_text(lister, minimal, nw, mw));
            let mut i: usize = 0;
            while i < t.len()
                invariant
                    i <= t@.len(),
                    nw == name_width(lister, t@),
                    mw == metric_width(lister, t@),
                    r@.len() == i + 1,
                    r@[0]@ == header_line(lister, minimal, nw as nat, mw as nat),
                    forall|k: int|
                        0 <= k < i ==> (#[trigger] r@[k + 1])@ == row_line(
                            lister,
                            minimal,
                            t@[k],
                            nw as nat,
                            mw as nat,
                        ),
                decreases t.len() - i,
            {
                r.push(row_text(lister, minimal, &t[i], nw, mw));
                i = i + 1;
            }
            r
        },
    }
}

/// `10` to the power `k`.
pub open spec fn pow10(k: nat) -> nat
    decreases k,
{
    if k == 0 {
        1
    } else {
        10 * pow10((k - 1) as nat)
    }
}

pub(crate) proof fn lemma_dec_len_below(n: nat, k: nat)
    requires
        k >= 1,
        n < pow10(k),
    ensures
        dec(n).len() <= k,
    decreases n,
{
    if n >= 10 {
        if k == 1 {
            assert(pow10(1) == 10 * pow10(0));
        } else {
            let p = pow10((k - 1) as nat);
            assert(pow10(k) == 10 * p);
            assert(n / 10 < p) by (nonlinear_arith)
                requires
                    n < 10 * p,
            ;
            lemma_dec_len_below(n / 10, (k - 1) as nat);
        }
    }
}

proof fn lemma_dec_len_bound(n: nat)
    requires
        n <= u64::MAX,
    ensures
        dec(n).len() <= 20,
{
    assert(pow10(20) == 100000000000000000000) by {
        reveal_with_fuel(pow10, 21);
    }
    lemma_dec_len_below(n, 20);
}

proof fn lemma_widest_metric_bound(s: Seq<Entry>)
    ensures
        widest_metric(Lister::Folders, s) <= 20,
    decreases s.len(),
{
    if s.len() > 0 {
        lemma_widest_metric_bound(s.drop_last());
        lemma_dec_len_bound(s.last().metric as nat);
    }
}

} // verus!
