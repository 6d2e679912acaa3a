//! What the command line asks for, and the lines of the report that need laying out.
use vstd::prelude::*;
use vstd::string::{StrSliceExecFns, StringExecFns};

use crate::text::{append_decimal, decimal};

verus! {

/// How many seconds a run may take.
pub const TIME_BUDGET_SECS: u64 = 600;

/// Whether a run took longer than it may.
pub fn over_budget(elapsed_secs: u64) -> (r: bool)
    ensures
        r <==> elapsed_secs > TIME_BUDGET_SECS,
        r <==> elapsed_secs > 10 * 60,
{
    elapsed_secs > TIME_BUDGET_SECS
}

/// Argument `i` selects a mode, and the next one names the baseline.
pub open spec fn asks_for_baseline(args: Seq<String>, i: int) -> bool {
    &&& 0 <= i
    &&& i + 1 < args.len()
    &&& args[i]@ == "--mode"@ || args[i]@ == "-m"@
    &&& args[i + 1]@ == "baseline"@
}

/// How many passes over the workloads are asked for: three for the baseline, otherwise one.
pub fn passes_of(args: &[String]) -> (r: usize)
    ensures
        r == if exists|i: int| asks_for_baseline(args@, i) {
            3usize
        } else {
            1usize
        },
        r == 3 <==> exists|i: int|
            0 <= i < args@.len() - 1 && ((#[trigger] args@[i])@ == "--mode"@ || args@[i]@
                == "-m"@) && args@[i + 1]@ == "baseline"@,
        r == 3 || r == 1,
{
    let long: String = "--mode".to_owned();
    let short: String = "-m".to_owned();
    let baseline: String = "baseline".to_owned();
    let mut k: usize = 1;
    while k < args.len()
        invariant
            long@ == "--mode"@,
            short@ == "-m"@,
            baseline@ == "baseline"@,
            1 <= k,
            k <= args@.len() || k == 1,
            forall|i: int| 0 <= i < k - 1 ==> !asks_for_baseline(args@, i),
        decreases args@.len() - k,
    {
        if (args[k - 1] == long || args[k - 1] == short) && args[k] == baseline {
            assert(asks_for_baseline(args@, k - 1));
            assert(args@[k - 1]@ == "--mode"@ || args@[k - 1]@ == "-m"@);
            return 3;
        }
        k += 1;
    }
    assert forall|i: int|
        0 <= i < args@.len() - 1 && ((#[trigger] args@[i])@ == "--mode"@ || args@[i]@ == "-m"@)
            && args@[i + 1]@ == "baseline"@ implies false by {
        assert(asks_for_baseline(args@, i));
    }
    1
}

/// `n` spaces.
pub open spec fn spaces(n: nat) -> Seq<char> {
    Seq::new(n, |i: int| ' ')
}

/// The text, filled up with spaces to `width` characters.
pub open spec fn padded(s: Seq<char>, width: nat) -> Seq<char> {
    if s.len() >= width {
        s
    } else {
        s + spaces((width - s.len()) as nat)
    }
}

/// Filling up keeps the text, puts nothing but spaces behind it, and no more than it takes to get to
/// the width.
pub proof fn lemma_padded(s: Seq<char>, width: nat)
    ensures
        s.is_prefix_of(padded(s, width)),
        padded(s, width).len() >= width,
        padded(s, width).len() == s.len() || padded(s, width).len() == width,
        forall|i: int| s.len() <= i < padded(s, width).len() ==> #[trigger] padded(s, width)[i]
            == ' ',
{
}

/// Fills a text up with spaces to `width` characters.
fn pad(s: String, width: usize) -> (r: String)
    ensures
        r@ == padded(s@, width as nat),
{
    let ghost text = s@;
    let mut r: String = s;
    let mut len: usize = r.as_str().unicode_len();
    proof {
        reveal_strlit(" ");
        assert(text + spaces(0) =~= text);
    }
    while len < width
        invariant
            len == r@.len(),
            len >= text.len(),
            len <= width || len == text.len(),
            " "@ == seq![' '],
            r@ == text + spaces((len - text.len()) as nat),
        decreases width - len,
    {
        r.append(" ");
        len += 1;
        assert(r@ =~= text + spaces((len - text.len()) as nat));
    }
    r
}

/// The line of a hardware count, which is absent without hardware counters.
pub open spec fn counter_text(label: Seq<char>, count: Option<u64>, width: nat) -> Seq<char> {
    padded(label + ":"@, width) + " "@ + match count {
        Some(n) => decimal(n as nat),
        None => "n/a (no PMU access on this platform)"@,
    }
}

/// The line of a hardware count, with the label filled up to `width` characters.
pub fn counter_line(label: &str, count: Option<u64>, width: usize) -> (r: String)
    ensures
        r@ == counter_text(label@, count, width as nat),
        count matches Some(n) ==> r@ == padded(label@ + ":"@, width as nat) + " "@ + decimal(
            n as nat,
        ),
        count is None ==> r@ == padded(label@ + ":"@, width as nat) + " "@
            + "n/a (no PMU access on this platform)"@,
{
    let mut stem: String = label.to_owned();
    stem.append(":");
    let mut r: String = pad(stem, width);
    r.append(" ");
    match count {
        Some(n) => append_decimal(&mut r, n),
        None => r.append("n/a (no PMU access on this platform)"),
    }
    r
}

/// The line of a workload, with the name of its data filled up to `width` characters.
pub fn combo_line(shape: &str, data: &str, width: usize, ns: u64) -> (r: String)
    ensures
        r@ == "  "@ + shape@ + " "@ + padded(data@, width as nat) + " -> "@ + decimal(ns as nat)
            + " ns"@,
{
    let mut r: String = "  ".to_owned();
    r.append(shape);
    r.append(" ");
    r.append(pad(data.to_owned(), width).as_str());
    r.append(" -> ");
    append_decimal(&mut r, ns);
    r.append(" ns");
    r
}

} // verus!
