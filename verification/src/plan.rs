use vstd::prelude::*;

use crate::text::{
    copy_range, find_from, first_sep, lemma_digits_val_bounds, nth_field, parse_len,
    parse_len_spec, trim_bytes, trim_spec, NL, PLUS, TAB,
};
use vstd::arithmetic::div_mod::{lemma_div_pos_is_pos, lemma_fundamental_div_mod};
use vstd::arithmetic::mul::{
    lemma_mul_inequality, lemma_mul_is_commutative, lemma_mul_nonnegative,
    lemma_mul_strict_inequality,
};

verus! {

/// A planned window: a closed genomic interval with 1-based inclusive
/// coordinates on one chromosome.
#[derive(Debug, PartialEq, Eq)]
pub struct Window {
    pub chrom: Vec<u8>,
    pub start: usize,
    pub end: usize,
}

/// The mathematical shape of a window.
pub struct WinView {
    pub chrom: Seq<u8>,
    pub start: int,
    pub end: int,
}

impl View for Window {
    type V = WinView;

    open spec fn view(&self) -> WinView {
        WinView { chrom: self.chrom@, start: self.start as int, end: self.end as int }
    }
}

impl DeepView for Window {
    type V = WinView;

    open spec fn deep_view(&self) -> WinView {
        self@
    }
}

/// The windows tiling one chromosome of length `len` with window size `w`:
/// `len / w + 1` of them, the `i`-th spanning `[i*w + 1, (i+1)*w]`.  The last
/// may reach past `len`; a query there simply returns nothing.
pub open spec fn windows_for(chrom: Seq<u8>, len: int, w: int) -> Seq<WinView> {
    Seq::new(
        (len / w + 1) as nat,
        |i: int| WinView { chrom: chrom, start: i * w + 1, end: (i + 1) * w },
    )
}

/// One length-table line: trimmed of surrounding whitespace, the first two
/// tab-separated fields read as a non-empty chromosome name and a length.
/// `None` for lines that fail to parse, which the planner skips silently.
pub open spec fn parse_line_spec(line: Seq<u8>) -> Option<(Seq<u8>, int)> {
    let t = trim_spec(line);
    match nth_field(t, 0, TAB) {
        None => None,
        Some(c) => match nth_field(t, 1, TAB) {
            None => None,
            Some(lf) => if c.len() > 0 {
                match parse_len_spec(lf) {
                    None => None,
                    Some(l) => Some((c, l)),
                }
            } else {
                None
            },
        },
    }
}

/// The windows a single line contributes: none when the line fails to parse
/// or its final window's end would not fit in a machine word.
pub open spec fn line_windows(line: Seq<u8>, w: int) -> Seq<WinView> {
    match parse_line_spec(line) {
        None => Seq::empty(),
        Some(cl) => if cl.1 + w <= usize::MAX {
            windows_for(cl.0, cl.1, w)
        } else {
            Seq::empty()
        },
    }
}

/// The lines of the length table, split on line feeds.
pub open spec fn lines_of(s: Seq<u8>) -> Seq<Seq<u8>>
    decreases s.len(),
{
    let k = first_sep(s, NL);
    if 0 <= k < s.len() {
        seq![s.take(k)] + lines_of(s.skip(k + 1))
    } else {
        seq![s]
    }
}

/// The plan a sequence of lines yields, in line order.
pub open spec fn plan_lines(lines: Seq<Seq<u8>>, w: int) -> Seq<WinView>
    decreases lines.len(),
{
    if lines.len() == 0 {
        Seq::empty()
    } else {
        plan_lines(lines.drop_last(), w) + line_windows(lines.last(), w)
    }
}

/// The full plan of a length table: each line's windows in file order.
pub open spec fn plan_spec(content: Seq<u8>, w: int) -> Seq<WinView> {
    plan_lines(lines_of(content), w)
}

pub proof fn lemma_plan_lines_concat(a: Seq<Seq<u8>>, b: Seq<Seq<u8>>, w: int)
    ensures
        plan_lines(a + b, w) == plan_lines(a, w) + plan_lines(b, w),
    decreases b.len(),
{
    if b.len() == 0 {
        assert(a + b =~= a);
        assert(plan_lines(a, w) + plan_lines(b, w) =~= plan_lines(a, w));
    } else {
        lemma_plan_lines_concat(a, b.drop_last(), w);
        assert((a + b).drop_last() =~= a + b.drop_last());
        assert((a + b).last() == b.last());
        assert(plan_lines(a, w) + (plan_lines(b.drop_last(), w) + line_windows(b.last(), w)) =~= (
        plan_lines(a, w) + plan_lines(b.drop_last(), w)) + line_windows(b.last(), w));
    }
}

/// Parses one line of the length table.
pub fn parse_line(line: &Vec<u8>) -> (r: Option<(Vec<u8>, usize)>)
    ensures
        match r {
            Some(cl) => parse_line_spec(line@) == Some((cl.0@, cl.1 as int)),
            None => parse_line_spec(line@) is None,
        },
{
    let t = trim_bytes(line);
    match crate::text::nth_field_range(&t, 0, TAB) {
        None => {
            proof {
                assert(false);
            }
            None
        },
        Some((a0, b0)) => {
            let chrom = copy_range(&t, a0, b0);
            if chrom.len() == 0 {
                return None;
            }
            match crate::text::nth_field_range(&t, 1, TAB) {
                None => None,
                Some((a1, b1)) => {
                    let lf = copy_range(&t, a1, b1);
                    match parse_len(&lf) {
                        None => None,
                        Some(l) => Some((chrom, l)),
                    }
                },
            }
        },
    }
}

/// The windows of one parsed line.
#[verifier::loop_isolation(false)]
fn windows_for_line(chrom: &Vec<u8>, len: usize, w: usize) -> (r: Vec<Window>)
    requires
        w >= 1,
        len <= usize::MAX - w,
    ensures
        r.deep_view() == windows_for(chrom@, len as int, w as int),
{
    let n = len / w;
    proof {
        lemma_div_pos_is_pos(len as int, w as int);
        lemma_fundamental_div_mod(len as int, w as int);
        lemma_mul_is_commutative(w as int, len as int / w as int);
    }
    let mut r: Vec<Window> = Vec::new();
    let mut i: usize = 0;
    while i <= n
        invariant
            i <= n + 1,
            r.deep_view() == windows_for(chrom@, len as int, w as int).take(i as int),
        decreases n + 1 - i,
    {
        proof {
            lemma_mul_inequality(i as int, n as int, w as int);
            assert((i as int + 1) * (w as int) == i as int * w as int + w as int)
                by (nonlinear_arith);
            assert(n as int * w as int <= len as int);
        }
        let start = i * w + 1;
        let end = (i + 1) * w;
        r.push(Window { chrom: chrom.clone(), start, end });
        proof {
            let full = windows_for(chrom@, len as int, w as int);
            assert(full[i as int] == WinView {
                chrom: chrom@,
                start: i as int * w as int + 1,
                end: (i as int + 1) * (w as int),
            });
            assert(r.deep_view() =~= full.take(i + 1));
        }
        i = i + 1;
    }
    proof {
        assert(windows_for(chrom@, len as int, w as int).take(i as int) =~= windows_for(
            chrom@,
            len as int,
            w as int,
        ));
    }
    r
}

/// Builds the window plan of a chromosome-length table with window size
/// `window`: for every line that parses as `(chrom, length)`, the
/// `length / window + 1` windows that tile the chromosome, in file order.
/// Malformed lines are skipped silently; empty input yields an empty plan.
pub fn plan_windows(content: &Vec<u8>, window: usize) -> (r: Vec<Window>)
    requires
        window >= 1,
    ensures
        r.deep_view() == plan_spec(content@, window as int),
{
    let mut r: Vec<Window> = Vec::new();
    let mut startpos: usize = 0;
    proof {
        assert(content@.skip(0) =~= content@);
    }
    loop
        invariant_except_break
            window >= 1,
            startpos <= content@.len(),
            plan_spec(content@, window as int) == r.deep_view() + plan_lines(
                lines_of(content@.skip(startpos as int)),
                window as int,
            ),
        ensures
            plan_spec(content@, window as int) == r.deep_view(),
        decreases content@.len() - startpos,
    {
        let k = find_from(content, startpos, NL);
        let line = copy_range(content, startpos, k);
        let ghost suffix = content@.skip(startpos as int);
        proof {
            assert(first_sep(suffix, NL) == k - startpos);
            assert(suffix.take(k - startpos) =~= line@);
            if k < content.len() {
                assert(lines_of(suffix) == seq![line@] + lines_of(suffix.skip(k - startpos + 1)));
                assert(suffix.skip(k - startpos + 1) =~= content@.skip(k + 1));
                lemma_plan_lines_concat(
                    seq![line@],
                    lines_of(content@.skip(k + 1)),
                    window as int,
                );
            } else {
                assert(suffix =~= line@);
                assert(lines_of(suffix) == seq![line@]);
            }
            assert(seq![line@].drop_last() =~= Seq::<Seq<u8>>::empty());
            assert(seq![line@].last() == line@);
            assert(plan_lines(Seq::<Seq<u8>>::empty(), window as int) == Seq::<WinView>::empty());
            assert(plan_lines(seq![line@], window as int) == Seq::<WinView>::empty()
                + line_windows(line@, window as int));
            assert(Seq::<WinView>::empty() + line_windows(line@, window as int) =~= line_windows(
                line@,
                window as int,
            ));
        }
        match parse_line(&line) {
            None => {
                proof {
                    assert(line_windows(line@, window as int) =~= Seq::<WinView>::empty());
                    assert(r.deep_view() + Seq::<WinView>::empty() =~= r.deep_view());
                }
            },
            Some((chrom, l)) => {
                if l <= usize::MAX - window {
                    let mut ws = windows_for_line(&chrom, l, window);
                    let ghost old_deep = r.deep_view();
                    let ghost ws_deep = ws.deep_view();
                    r.append(&mut ws);
                    proof {
                        assert(r.deep_view() =~= old_deep + ws_deep);
                        assert(line_windows(line@, window as int) == ws_deep);
                    }
                } else {
                    proof {
                        assert(line_windows(line@, window as int) =~= Seq::<WinView>::empty());
                        assert(r.deep_view() + Seq::<WinView>::empty() =~= r.deep_view());
                    }
                }
            },
        }
        if k == content.len() {
            break ;
        }
        startpos = k + 1;
    }
    r
}

/// Tiling: a chromosome of length `len` gets exactly `len / w + 1` windows;
/// the first starts at 1; each spans exactly `w` bases; each later window
/// starts one past its predecessor's end; all carry the chromosome's name.
pub proof fn lemma_tiling(chrom: Seq<u8>, len: int, w: int)
    requires
        w >= 1,
        len >= 0,
    ensures
        windows_for(chrom, len, w).len() == len / w + 1,
        windows_for(chrom, len, w)[0].start == 1,
        forall|i: int|
            0 <= i <= len / w ==> (#[trigger] windows_for(chrom, len, w)[i]).end - windows_for(
                chrom,
                len,
                w,
            )[i].start + 1 == w,
        forall|i: int|
            0 <= i < len / w ==> (#[trigger] windows_for(chrom, len, w)[i + 1]).start
                == windows_for(chrom, len, w)[i].end + 1,
        forall|i: int|
            0 <= i <= len / w ==> (#[trigger] windows_for(chrom, len, w)[i]).chrom == chrom,
{
    lemma_div_pos_is_pos(len, w);
    assert forall|i: int| 0 <= i <= len / w implies (#[trigger] windows_for(chrom, len, w)[i]).end
        - windows_for(chrom, len, w)[i].start + 1 == w by {
        assert((i + 1) * w == i * w + w) by (nonlinear_arith);
    }
    assert forall|i: int| 0 <= i < len / w implies (#[trigger] windows_for(chrom, len, w)[i
        + 1]).start == windows_for(chrom, len, w)[i].end + 1 by {
        assert((i + 1) * w == i * w + w) by (nonlinear_arith);
    }
}

/// File order: the plan of a length table is the plan of its first `i`
/// lines followed by the plan of the remaining lines, so every window of an
/// earlier line precedes every window of a later one.
pub proof fn lemma_plan_file_order(lines: Seq<Seq<u8>>, w: int, i: int)
    requires
        0 <= i <= lines.len(),
    ensures
        plan_lines(lines, w) == plan_lines(lines.take(i), w) + plan_lines(lines.skip(i), w),
{
    lemma_plan_lines_concat(lines.take(i), lines.skip(i), w);
    assert(lines.take(i) + lines.skip(i) =~= lines);
}

/// Order within a chromosome: window starts strictly ascend with the index.
pub proof fn lemma_chrom_order(chrom: Seq<u8>, len: int, w: int)
    requires
        w >= 1,
        len >= 0,
    ensures
        forall|i: int, j: int|
            0 <= i < j < windows_for(chrom, len, w).len() ==> (#[trigger] windows_for(
                chrom,
                len,
                w,
            )[i]).start < (#[trigger] windows_for(chrom, len, w)[j]).start,
{
    lemma_div_pos_is_pos(len, w);
    assert forall|i: int, j: int| 0 <= i < j < windows_for(chrom, len, w).len() implies (
    #[trigger] windows_for(chrom, len, w)[i]).start < (#[trigger] windows_for(
        chrom,
        len,
        w,
    )[j]).start by {
        lemma_mul_strict_inequality(i, j, w);
    }
}

proof fn lemma_parse_line_len_nonneg(line: Seq<u8>)
    ensures
        parse_line_spec(line) matches Some(cl) ==> cl.1 >= 0,
{
    if parse_line_spec(line) is Some {
        let t = trim_spec(line);
        let lf = nth_field(t, 1, TAB)->Some_0;
        let d = if lf.len() > 0 && lf[0] == PLUS {
            lf.skip(1)
        } else {
            lf
        };
        lemma_digits_val_bounds(d);
    }
}

proof fn lemma_plan_lines_start_clamp(lines: Seq<Seq<u8>>, w: int)
    requires
        w >= 1,
    ensures
        forall|i: int| 0 <= i < plan_lines(lines, w).len() ==> (#[trigger] plan_lines(lines, w)[i]).start >= 1,
    decreases lines.len(),
{
    if lines.len() > 0 {
        lemma_plan_lines_start_clamp(lines.drop_last(), w);
        lemma_parse_line_len_nonneg(lines.last());
        let lw = line_windows(lines.last(), w);
        assert forall|i: int| 0 <= i < lw.len() implies (#[trigger] lw[i]).start >= 1 by {
            match parse_line_spec(lines.last()) {
                Some(cl) => {
                    lemma_mul_nonnegative(i, w);
                },
                None => {},
            }
        }
        assert forall|i: int| 0 <= i < plan_lines(lines, w).len() implies (#[trigger] plan_lines(
            lines,
            w,
        )[i]).start >= 1 by {
            let a = plan_lines(lines.drop_last(), w);
            if i < a.len() {
                assert(plan_lines(lines, w)[i] == a[i]);
            } else {
                assert(plan_lines(lines, w)[i] == lw[i - a.len()]);
            }
        }
    }
}

/// Start clamp: no window of any plan starts at 0 — every planned start is
/// at least 1, the first 1-based pileup coordinate.
pub proof fn lemma_start_clamp(content: Seq<u8>, w: int)
    requires
        w >= 1,
    ensures
        forall|i: int|
            0 <= i < plan_spec(content, w).len() ==> (#[trigger] plan_spec(content, w)[i]).start
                >= 1,
{
    lemma_plan_lines_start_clamp(lines_of(content), w);
}

} // verus!
