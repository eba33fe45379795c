//! Text output for a resolved stack: a detailed block and a compact block,
//! the entry whose number is the start request marked with " <-".

use vstd::prelude::*;
use vstd::string::*;
use crate::pr::PullRequest;

verus! {

/// The character for one decimal digit.
pub open spec fn digit_char(d: int) -> char {
    if d == 0 {
        '0'
    } else if d == 1 {
        '1'
    } else if d == 2 {
        '2'
    } else if d == 3 {
        '3'
    } else if d == 4 {
        '4'
    } else if d == 5 {
        '5'
    } else if d == 6 {
        '6'
    } else if d == 7 {
        '7'
    } else if d == 8 {
        '8'
    } else {
        '9'
    }
}

/// The decimal digits of `n`, most significant first.
pub open spec fn dec_seq(n: nat) -> Seq<char>
    decreases n,
{
    if n < 10 {
        seq![digit_char(n as int)]
    } else {
        dec_seq(n / 10) + seq![digit_char((n % 10) as int)]
    }
}

/// The marker appended to the line of the start request.
pub open spec fn marker(number: u32, current: u32) -> Seq<char> {
    if number == current {
        " <-"@
    } else {
        Seq::empty()
    }
}

/// One line of the detailed block: number, state, title, marker.
pub open spec fn line_detail(pr: PullRequest, current: u32) -> Seq<char> {
    "- #"@ + dec_seq(pr.number as nat) + " ("@ + pr.state@ + "): "@ + pr.title@ + marker(
        pr.number,
        current,
    ) + "\n"@
}

/// One line of the compact block: number and marker only.
pub open spec fn line_compact(pr: PullRequest, current: u32) -> Seq<char> {
    "- #"@ + dec_seq(pr.number as nat) + marker(pr.number, current) + "\n"@
}

/// The detailed lines for `stack[i..]`.
pub open spec fn detail_from(stack: Seq<PullRequest>, current: u32, i: int) -> Seq<char>
    decreases stack.len() - i,
{
    if i < 0 || i >= stack.len() {
        Seq::empty()
    } else {
        line_detail(stack[i], current) + detail_from(stack, current, i + 1)
    }
}

/// The compact lines for `stack[i..]`.
pub open spec fn compact_from(stack: Seq<PullRequest>, current: u32, i: int) -> Seq<char>
    decreases stack.len() - i,
{
    if i < 0 || i >= stack.len() {
        Seq::empty()
    } else {
        line_compact(stack[i], current) + compact_from(stack, current, i + 1)
    }
}

/// The whole printed text: header, detailed block, separator, header again,
/// compact block.
pub open spec fn spec_render(stack: Seq<PullRequest>, current: u32) -> Seq<char> {
    "\nstack:\n"@ + detail_from(stack, current, 0) + "--------\n"@ + "\nstack:\n"@ + compact_from(
        stack,
        current,
        0,
    )
}

/// Appends one decimal digit.
fn push_digit(out: &mut String, d: u32)
    requires
        d < 10,
    ensures
        final(out)@ == old(out)@ + seq![digit_char(d as int)],
{
    let digits = "0123456789";
    proof {
        reveal_strlit("0123456789");
    }
    let piece = digits.substring_char(d as usize, d as usize + 1);
    proof {
        assert(piece@ =~= seq![digit_char(d as int)]);
    }
    out.append(piece);
}

/// The digit characters denoted by the digit values in `ds`, last first.
pub open spec fn rev_chars(ds: Seq<u32>) -> Seq<char>
    decreases ds.len(),
{
    if ds.len() == 0 {
        Seq::empty()
    } else {
        seq![digit_char(ds.last() as int)] + rev_chars(ds.drop_last())
    }
}

/// Appends the decimal form of `n`.
fn push_u32(out: &mut String, n: u32)
    ensures
        final(out)@ == old(out)@ + dec_seq(n as nat),
{
    if n == 0 {
        push_digit(out, 0);
        return;
    }
    let mut m = n;
    let mut ds: Vec<u32> = Vec::new();
    while m > 0
        invariant
            forall|k: int| 0 <= k < ds@.len() ==> ds@[k] < 10,
            m > 0 ==> dec_seq(n as nat) == dec_seq(m as nat) + rev_chars(ds@),
            m == 0 ==> dec_seq(n as nat) == rev_chars(ds@),
        decreases m,
    {
        let ghost ds0 = ds@;
        let ghost m0 = m as nat;
        let d = m % 10;
        ds.push(d);
        m = m / 10;
        proof {
            assert(ds@.drop_last() =~= ds0);
            assert(rev_chars(ds@) == seq![digit_char(d as int)] + rev_chars(ds0));
            if m > 0 {
                assert(dec_seq(m0) == dec_seq(m0 / 10) + seq![digit_char((m0 % 10) as int)]);
                assert(dec_seq(m0) + rev_chars(ds0) =~= dec_seq(m as nat) + rev_chars(ds@));
            } else {
                assert(dec_seq(m0) == seq![digit_char(m0 as int)]);
                assert(dec_seq(m0) + rev_chars(ds0) =~= rev_chars(ds@));
            }
        }
    }
    let mut j = ds.len();
    proof {
        assert(ds@.take(ds@.len() as int) =~= ds@);
    }
    while j > 0
        invariant
            j <= ds@.len(),
            forall|k: int| 0 <= k < ds@.len() ==> ds@[k] < 10,
            out@ + rev_chars(ds@.take(j as int)) == old(out)@ + dec_seq(n as nat),
        decreases j,
    {
        let ghost o0 = out@;
        push_digit(out, ds[j - 1]);
        proof {
            assert(ds@.take(j as int).drop_last() =~= ds@.take(j - 1));
            assert(ds@.take(j as int).last() == ds@[j - 1]);
            assert(o0 + rev_chars(ds@.take(j as int)) =~= out@ + rev_chars(ds@.take(j - 1)));
        }
        j = j - 1;
    }
    proof {
        assert(rev_chars(ds@.take(0)) =~= Seq::<char>::empty());
        assert(out@ =~= old(out)@ + dec_seq(n as nat));
    }
}

/// The printed form of a resolved stack: a "stack:" header and one detailed
/// line per entry, a separator, then the header and one compact line per
/// entry; the entry numbered `current` carries the " <-" marker.
pub fn render_stack(stack: &Vec<PullRequest>, current: u32) -> (r: String)
    ensures
        r@ == spec_render(stack@, current),
{
    let mut out = String::new();
    out.append("\nstack:\n");
    let mut i: usize = 0;
    while i < stack.len()
        invariant
            i <= stack@.len(),
            out@ + detail_from(stack@, current, i as int) == "\nstack:\n"@ + detail_from(
                stack@,
                current,
                0,
            ),
        decreases stack@.len() - i,
    {
        let ghost o0 = out@;
        let pr = &stack[i];
        out.append("- #");
        push_u32(&mut out, pr.number);
        out.append(" (");
        out.append(pr.state.as_str());
        out.append("): ");
        out.append(pr.title.as_str());
        if pr.number == current {
            out.append(" <-");
        }
        out.append("\n");
        proof {
            assert(out@ =~= o0 + line_detail(stack@[i as int], current));
            assert(o0 + detail_from(stack@, current, i as int) =~= out@ + detail_from(
                stack@,
                current,
                i + 1,
            ));
        }
        i = i + 1;
    }
    out.append("--------\n");
    out.append("\nstack:\n");
    let ghost mid = out@;
    let mut j: usize = 0;
    while j < stack.len()
        invariant
            j <= stack@.len(),
            out@ + compact_from(stack@, current, j as int) == mid + compact_from(
                stack@,
                current,
                0,
            ),
            mid == "\nstack:\n"@ + detail_from(stack@, current, 0) + "--------\n"@ + "\nstack:\n"@,
        decreases stack@.len() - j,
    {
        let ghost o0 = out@;
        let pr = &stack[j];
        out.append("- #");
        push_u32(&mut out, pr.number);
        if pr.number == current {
            out.append(" <-");
        }
        out.append("\n");
        proof {
            assert(out@ =~= o0 + line_compact(stack@[j as int], current));
            assert(o0 + compact_from(stack@, current, j as int) =~= out@ + compact_from(
                stack@,
                current,
                j + 1,
            ));
        }
        j = j + 1;
    }
    proof {
        assert(out@ =~= spec_render(stack@, current));
    }
    out
}

} // verus!
