//! The text of the editor's error and warning messages.

use vstd::prelude::*;
use crate::ascii::{decimal, push_decimal};
use crate::text::push_str;

verus! {

/// Decimal renderings of `v`, joined with `, `.
pub open spec fn join_decimals(v: Seq<usize>) -> Seq<char>
    decreases v.len(),
{
    if v.len() == 0 {
        Seq::empty()
    } else if v.len() == 1 {
        decimal(v[0] as nat)
    } else {
        join_decimals(v.drop_last()) + ", "@ + decimal(v.last() as nat)
    }
}

/// The message for a patch section without a snapshot tag.
pub fn missing_snapshot_tag_message(section_path: &str) -> (s: String)
    ensures
        s@ == "File "@ + section_path@
            + " has no snapshot tag. Use `read` to get the current snapshot hash, then include `[path#HASH]` in your patch header."@,
{
    let mut s = String::new();
    push_str(&mut s, "File ");
    push_str(&mut s, section_path);
    push_str(
        &mut s,
        " has no snapshot tag. Use `read` to get the current snapshot hash, then include `[path#HASH]` in your patch header.",
    );
    s
}

/// The message for anchors on lines the snapshot did not show.
pub fn unseen_lines_message(path: &str, unseen: &[usize], expected: &str) -> (s: String)
    ensures
        s@ == "File "@ + path@ + ": snapshot #"@ + expected@ + " does not include line(s) "@ + join_decimals(
            unseen@,
        ) + ". Re-read the file and retry with lines that were actually displayed."@,
{
    let mut s = String::new();
    push_str(&mut s, "File ");
    push_str(&mut s, path);
    push_str(&mut s, ": snapshot #");
    push_str(&mut s, expected);
    push_str(&mut s, " does not include line(s) ");
    let ghost s0 = s@;
    let mut i: usize = 0;
    while i < unseen.len()
        invariant
            i <= unseen@.len(),
            s@ == s0 + join_decimals(unseen@.take(i as int)),
        decreases unseen@.len() - i,
    {
        proof {
            assert(unseen@.take(i + 1).drop_last() =~= unseen@.take(i as int));
        }
        if i > 0 {
            push_str(&mut s, ", ");
        } else {
            assert(unseen@.take(0) =~= Seq::<usize>::empty());
        }
        push_decimal(&mut s, unseen[i]);
        i = i + 1;
        assert(s@ =~= s0 + join_decimals(unseen@.take(i as int)));
    }
    assert(unseen@.take(i as int) =~= unseen@);
    push_str(&mut s, ". Re-read the file and retry with lines that were actually displayed.");
    s
}

/// The message for a block anchor that no resolver could resolve.
pub fn block_unresolved_message(line: usize, op: &str) -> (s: String)
    ensures
        s@ == "line "@ + decimal(line as nat) + ": cannot resolve block anchor for `"@ + op@
            + "` \u{2014} no block resolver available"@,
{
    let mut s = String::new();
    push_str(&mut s, "line ");
    push_decimal(&mut s, line);
    push_str(&mut s, ": cannot resolve block anchor for `");
    push_str(&mut s, op);
    push_str(&mut s, "` \u{2014} no block resolver available");
    s
}

/// The warning when an insert after an anchor is moved outward to where its
/// indentation says it belongs.
pub fn after_insert_landing_shift_warning(anchor_line: usize, landing_line: usize) -> (s: String)
    ensures
        s@ == "insert body indentation suggests it belongs after line "@ + decimal(landing_line as nat)
            + ", not after line "@ + decimal(anchor_line as nat) + "; shifted landing accordingly"@,
{
    let mut s = String::new();
    push_str(&mut s, "insert body indentation suggests it belongs after line ");
    push_decimal(&mut s, landing_line);
    push_str(&mut s, ", not after line ");
    push_decimal(&mut s, anchor_line);
    push_str(&mut s, "; shifted landing accordingly");
    s
}

/// The warning when a block insert is moved inward, inside the block.
pub fn block_insert_landing_shift_warning(block_start: usize, closer_line: usize, landing_line: usize) -> (s: String)
    ensures
        s@ == "block insert body indentation suggests it belongs inside the block (line "@ + decimal(
            landing_line as nat,
        ) + "), not after the closing line; shifted landing inward from block start at line "@ + decimal(
            block_start as nat,
        ),
{
    let _ = closer_line;
    let mut s = String::new();
    push_str(&mut s, "block insert body indentation suggests it belongs inside the block (line ");
    push_decimal(&mut s, landing_line);
    push_str(&mut s, "), not after the closing line; shifted landing inward from block start at line ");
    push_decimal(&mut s, block_start);
    s
}

} // verus!
