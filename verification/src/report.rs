//! Rendering of the change report: a dated heading, one titled section per
//! non-empty bucket, and one grammatical list item per described asset.

use vstd::prelude::*;

use crate::description::Description;
use crate::description::DescriptionView;

verus! {

/// The character of one decimal digit.
pub open spec fn spec_digit_char(d: nat) -> char {
    if d == 0 {
        '0'
    } else if d == 1 {
        '1'
    } else if d == 2 {
        '2'
    } else if d == 3 {
        '3'
    } else if d == 4 {
        '4'
    } else if d == 5 {
        '5'
    } else if d == 6 {
        '6'
    } else if d == 7 {
        '7'
    } else if d == 8 {
        '8'
    } else {
        '9'
    }
}

/// The decimal digits of `n`, most significant first.
pub open spec fn spec_digits(n: nat) -> Seq<char>
    decreases n,
{
    if n < 10 {
        seq![spec_digit_char(n)]
    } else {
        spec_digits(n / 10).push(spec_digit_char(n % 10))
    }
}

/// A possibly negative number in decimal.
pub open spec fn spec_int_text(n: int) -> Seq<char> {
    if n < 0 {
        seq!['-'] + spec_digits((-n) as nat)
    } else {
        spec_digits(n as nat)
    }
}

fn digit_str(d: u64) -> (r: &'static str)
    requires
        d < 10,
    ensures
        r@ == seq![spec_digit_char(d as nat)],
{
    proof {
        reveal_strlit("0");
        reveal_strlit("1");
        reveal_strlit("2");
        reveal_strlit("3");
        reveal_strlit("4");
        reveal_strlit("5");
        reveal_strlit("6");
        reveal_strlit("7");
        reveal_strlit("8");
        reveal_strlit("9");
    }
    if d == 0 {
        "0"
    } else if d == 1 {
        "1"
    } else if d == 2 {
        "2"
    } else if d == 3 {
        "3"
    } else if d == 4 {
        "4"
    } else if d == 5 {
        "5"
    } else if d == 6 {
        "6"
    } else if d == 7 {
        "7"
    } else if d == 8 {
        "8"
    } else {
        "9"
    }
}

fn append_digits(out: &mut String, n: u64)
    ensures
        final(out)@ == old(out)@ + spec_digits(n as nat),
    decreases n,
{
    if n >= 10 {
        let q = n / 10;
        proof {
            assert(q < n) by (nonlinear_arith)
                requires
                    n >= 10,
                    q == n / 10,
            ;
        }
        append_digits(out, q);
        let d = n % 10;
        out.append(digit_str(d));
        proof {
            assert(old(out)@ + spec_digits((n / 10) as nat) + seq![
                spec_digit_char((n % 10) as nat),
            ] =~= old(out)@ + spec_digits(n as nat));
        }
    } else {
        out.append(digit_str(n));
        proof {
            assert(old(out)@ + seq![spec_digit_char(n as nat)] =~= old(out)@ + spec_digits(
                n as nat,
            ));
        }
    }
}

/// Renders `n` in decimal, with a leading `-` for a negative number.
pub fn int_text(n: i64) -> (r: String)
    requires
        n > i64::MIN,
    ensures
        r@ == spec_int_text(n as int),
{
    let mut out = String::new();
    if n < 0 {
        out.append("-");
        proof {
            reveal_strlit("-");
            assert(out@ =~= seq!['-']);
        }
        let m = (-n) as u64;
        append_digits(&mut out, m);
        proof {
            assert(out@ =~= spec_int_text(n as int));
        }
    } else {
        append_digits(&mut out, n as u64);
        proof {
            assert(out@ =~= spec_int_text(n as int));
        }
    }
    out
}

/// The English name of the month with index `m`, January being `0`.
pub open spec fn spec_month_name(m: int) -> Seq<char> {
    if m == 0 {
        "January"@
    } else if m == 1 {
        "February"@
    } else if m == 2 {
        "March"@
    } else if m == 3 {
        "April"@
    } else if m == 4 {
        "May"@
    } else if m == 5 {
        "June"@
    } else if m == 6 {
        "July"@
    } else if m == 7 {
        "August"@
    } else if m == 8 {
        "September"@
    } else if m == 9 {
        "October"@
    } else if m == 10 {
        "November"@
    } else {
        "December"@
    }
}

fn month_name(m: i32) -> (r: &'static str)
    requires
        0 <= m < 12,
    ensures
        r@ == spec_month_name(m as int),
{
    if m == 0 {
        "January"
    } else if m == 1 {
        "February"
    } else if m == 2 {
        "March"
    } else if m == 3 {
        "April"
    } else if m == 4 {
        "May"
    } else if m == 5 {
        "June"
    } else if m == 6 {
        "July"
    } else if m == 7 {
        "August"
    } else if m == 8 {
        "September"
    } else if m == 9 {
        "October"
    } else if m == 10 {
        "November"
    } else {
        "December"
    }
}

/// The heading date: month name, day of the month, and year, the year
/// counted from 1900 as the calendar collaborator reports it.
pub open spec fn spec_timestamp(mon: int, mday: int, year: int) -> Seq<char> {
    spec_month_name(mon) + " "@ + spec_int_text(mday) + ", "@ + spec_int_text(1900 + year)
}

/// Renders the heading date for the given calendar fields: the month index
/// (January being `0`), the day of the month, and the years since 1900.
/// A month index outside the calendar is rejected, as the month has no
/// name.
pub fn timestamp(mon: i32, mday: i32, year: i32) -> (r: String)
    requires
        0 <= mon < 12,
    ensures
        r@ == spec_timestamp(mon as int, mday as int, year as int),
{
    let mut out = String::new();
    out.append(month_name(mon));
    out.append(" ");
    let day = int_text(mday as i64);
    out.append(day.as_str());
    out.append(", ");
    let year_text = int_text(1900i64 + (year as i64));
    out.append(year_text.as_str());
    proof {
        assert(out@ =~= spec_timestamp(mon as int, mday as int, year as int));
    }
    out
}

/// The display line of one described asset: the name, as a link where a
/// URL is known, with the designer appended; `None` where no name was
/// resolved, so that the asset is omitted from the report.
pub open spec fn spec_format(d: DescriptionView) -> Option<Seq<char>> {
    match d.name {
        Option::None => Option::None,
        Option::Some(nm) => {
            let base = match d.url {
                Option::Some(u) => "["@ + nm + "]("@ + u + ")"@,
                Option::None => nm,
            };
            Option::Some(
                match d.designer {
                    Option::Some(ds) => base + " by "@ + ds,
                    Option::None => base,
                },
            )
        },
    }
}

/// Renders the display line of one asset: `[name](url) by designer`, each
/// part present only where the description holds it, and no line at all
/// without a name.
pub fn format(desc: &Description) -> (r: Option<String>)
    ensures
        r.deep_view() == spec_format(desc@),
{
    let name = match &desc.name {
        None => {
            return None;
        },
        Some(nm) => nm,
    };
    let mut line = String::new();
    match &desc.url {
        Some(u) => {
            line.append("[");
            line.append(name.as_str());
            line.append("](");
            line.append(u.as_str());
            line.append(")");
        },
        None => {
            line.append(name.as_str());
        },
    }
    match &desc.designer {
        Some(ds) => {
            line.append(" by ");
            line.append(ds.as_str());
        },
        None => {},
    }
    proof {
        assert(Option::Some(line@) =~~= spec_format(desc@));
    }
    Some(line)
}

/// The display lines of the descriptions that resolved to a name, in
/// order.
pub open spec fn spec_lines(descs: Seq<DescriptionView>) -> Seq<Seq<char>>
    decreases descs.len(),
{
    if descs.len() == 0 {
        Seq::empty()
    } else {
        let pre = spec_lines(descs.drop_last());
        match spec_format(descs.last()) {
            Option::Some(l) => pre.push(l),
            Option::None => pre,
        }
    }
}

/// One rendered list item: a bullet, the line, and the list punctuation —
/// the last item closes with a period, the next-to-last one announces it
/// with `and` (after a comma only in lists of three or more), and every
/// other item ends with a comma.
pub open spec fn spec_item(line: Seq<char>, i: int, n: int) -> Seq<char> {
    "* "@ + line + (if i == n - 1 {
        "."@
    } else if i == n - 2 {
        if n == 2 {
            " and"@
        } else {
            ", and"@
        }
    } else {
        ","@
    }) + "\n"@
}

/// The first `k` rendered items, concatenated.
pub open spec fn spec_items_upto(lines: Seq<Seq<char>>, k: int) -> Seq<char>
    decreases k,
{
    if k <= 0 {
        Seq::empty()
    } else {
        spec_items_upto(lines, k - 1) + spec_item(lines[k - 1], k - 1, lines.len() as int)
    }
}

/// The rendering of one bucket: nothing where no asset resolved to a name,
/// else the title, a blank line, the items, and a closing blank line.
pub open spec fn spec_display(title: Seq<char>, lines: Seq<Seq<char>>) -> Seq<char> {
    if lines.len() == 0 {
        Seq::empty()
    } else {
        title + ":\n\n"@ + spec_items_upto(lines, lines.len() as int) + "\n"@
    }
}

/// Renders one titled bucket of described assets as a grammatical list,
/// omitting assets without a resolved name, and rendering nothing where no
/// line remains.
pub fn display(title: &str, descs: &Vec<Description>) -> (r: String)
    ensures
        r@ == spec_display(title@, spec_lines(descs.deep_view())),
{
    let ghost dv = descs.deep_view();
    let mut lines: Vec<String> = Vec::new();
    let mut i: usize = 0;
    proof {
        assert(dv.take(0int) =~= Seq::<DescriptionView>::empty());
        assert(lines.deep_view() =~~= spec_lines(dv.take(0int)));
    }
    while i < descs.len()
        invariant
            0 <= i <= descs@.len(),
            dv == descs.deep_view(),
            dv.len() == descs@.len(),
            lines.deep_view() == spec_lines(dv.take(i as int)),
        decreases descs@.len() - i,
    {
        let ghost cur = dv.take(i + 1);
        proof {
            assert(cur.drop_last() =~= dv.take(i as int));
            assert(cur.last() == dv[i as int]);
            assert(dv[i as int] == descs@[i as int]@);
        }
        let line = format(&descs[i]);
        match line {
            Some(l) => {
                lines.push(l);
            },
            None => {},
        }
        proof {
            assert(lines.deep_view() =~~= spec_lines(cur));
        }
        i += 1;
    }
    proof {
        assert(dv.take(dv.len() as int) =~= dv);
    }
    let ghost ls = lines.deep_view();
    let n = lines.len();
    if n == 0 {
        let empty = String::new();
        return empty;
    }
    let mut out = String::from_str(title);
    out.append(":\n\n");
    let mut j: usize = 0;
    proof {
        assert(out@ =~= title@ + ":\n\n"@ + spec_items_upto(ls, 0int));
    }
    while j < n
        invariant
            0 <= j <= n,
            n == lines@.len(),
            n >= 1,
            ls == lines.deep_view(),
            ls.len() == n,
            out@ == title@ + ":\n\n"@ + spec_items_upto(ls, j as int),
        decreases n - j,
    {
        proof {
            assert(ls[j as int] == lines@[j as int]@);
        }
        out.append("* ");
        out.append(lines[j].as_str());
        if j + 1 == n {
            out.append(".");
        } else if j + 2 == n {
            if n == 2 {
                out.append(" and");
            } else {
                out.append(", and");
            }
        } else {
            out.append(",");
        }
        out.append("\n");
        proof {
            assert(out@ =~= title@ + ":\n\n"@ + spec_items_upto(ls, j + 1));
        }
        j += 1;
    }
    out.append("\n");
    proof {
        assert(out@ =~= spec_display(title@, ls));
    }
    out
}

/// The whole report: the three rendered buckets under a dated heading, or
/// nothing at all where every bucket renders empty.
pub open spec fn spec_status(
    mon: int,
    mday: int,
    year: int,
    new: Seq<DescriptionView>,
    updated: Seq<DescriptionView>,
    removed: Seq<DescriptionView>,
) -> Seq<char> {
    let body = spec_display("New"@, spec_lines(new)) + spec_display("Updated"@, spec_lines(updated))
        + spec_display("Deleted"@, spec_lines(removed));
    if body.len() == 0 {
        Seq::empty()
    } else {
        "### "@ + spec_timestamp(mon, mday, year) + "\n\n"@ + body
    }
}

/// Renders the status report for one snapshot: the described assets of the
/// new, updated and removed buckets, under a heading dated with the given
/// calendar fields. An empty report stays empty, without a heading.
pub fn status(
    mon: i32,
    mday: i32,
    year: i32,
    new: &Vec<Description>,
    updated: &Vec<Description>,
    removed: &Vec<Description>,
) -> (r: String)
    requires
        0 <= mon < 12,
    ensures
        r@ == spec_status(
            mon as int,
            mday as int,
            year as int,
            new.deep_view(),
            updated.deep_view(),
            removed.deep_view(),
        ),
{
    let body_new = display("New", new);
    let body_updated = display("Updated", updated);
    let body_removed = display("Deleted", removed);
    if body_new.as_str().is_empty() && body_updated.as_str().is_empty()
        && body_removed.as_str().is_empty() {
        let empty = String::new();
        proof {
            assert(empty@ =~= spec_status(
                mon as int,
                mday as int,
                year as int,
                new.deep_view(),
                updated.deep_view(),
                removed.deep_view(),
            ));
        }
        return empty;
    }
    let mut out = String::from_str("### ");
    let heading = timestamp(mon, mday, year);
    out.append(heading.as_str());
    out.append("\n\n");
    out.append(body_new.as_str());
    out.append(body_updated.as_str());
    out.append(body_removed.as_str());
    proof {
        assert(out@ =~= spec_status(
            mon as int,
            mday as int,
            year as int,
            new.deep_view(),
            updated.deep_view(),
            removed.deep_view(),
        ));
    }
    out
}

} // verus!
