//! Small helpers shared by the editing commands.

use vstd::prelude::*;
use crate::text::{chars_of, string_of};

verus! {

/// What the escape `\c` stands for: a line feed, carriage return, tab,
/// NUL, backslash or quote; any other character keeps its backslash.
pub open spec fn escape_of(c: char) -> Seq<char> {
    if c == 'n' {
        seq!['\n']
    } else if c == 'r' {
        seq!['\r']
    } else if c == 't' {
        seq!['\t']
    } else if c == '0' {
        seq!['\0']
    } else if c == '\\' {
        seq!['\\']
    } else if c == '"' {
        seq!['"']
    } else if c == '\'' {
        seq!['\'']
    } else {
        seq!['\\', c]
    }
}

/// `s` with its escape sequences interpreted, left to right; a trailing
/// lone backslash stays.
pub open spec fn unescape(s: Seq<char>) -> Seq<char>
    decreases s.len(),
{
    if s.len() == 0 {
        Seq::empty()
    } else if s[0] != '\\' {
        seq![s[0]] + unescape(s.skip(1))
    } else if s.len() == 1 {
        seq!['\\']
    } else {
        escape_of(s[1]) + unescape(s.skip(2))
    }
}

/// Interprets `\n`, `\r`, `\t`, `\0`, `\\`, `\"` and `\'` in `input`;
/// other escapes and a trailing backslash are kept as they are.
pub fn interpret_escapes(input: &str) -> (out: String)
    ensures
        out@ == unescape(input@),
{
    let cs = chars_of(input);
    let n = cs.len();
    let mut out: Vec<char> = Vec::new();
    let mut i: usize = 0;
    assert(out@ + unescape(cs@.skip(0)) =~= unescape(input@)) by {
        assert(cs@.skip(0) =~= cs@);
    }
    while i < n
        invariant
            n == cs@.len(),
            cs@ == input@,
            i <= n,
            out@ + unescape(cs@.skip(i as int)) == unescape(input@),
        decreases n - i,
    {
        let ghost rest = cs@.skip(i as int);
        let c = cs[i];
        if c != '\\' {
            out.push(c);
            i = i + 1;
            proof {
                assert(rest.skip(1) =~= cs@.skip(i as int));
                assert(out@ + unescape(cs@.skip(i as int)) =~= out@.drop_last() + (seq![c] + unescape(rest.skip(1))));
            }
        } else if i + 1 == n {
            out.push('\\');
            i = i + 1;
            proof {
                assert(cs@.skip(i as int) =~= Seq::<char>::empty());
                assert(out@ + unescape(cs@.skip(i as int)) =~= out@.drop_last() + seq!['\\']);
            }
        } else {
            let d = cs[i + 1];
            let ghost before = out@;
            if d == 'n' {
                out.push('\n');
            } else if d == 'r' {
                out.push('\r');
            } else if d == 't' {
                out.push('\t');
            } else if d == '0' {
                out.push('\0');
            } else if d == '\\' {
                out.push('\\');
            } else if d == '"' {
                out.push('"');
            } else if d == '\'' {
                out.push('\'');
            } else {
                out.push('\\');
                out.push(d);
            }
            i = i + 2;
            proof {
                assert(out@ =~= before + escape_of(d));
                assert(rest.skip(2) =~= cs@.skip(i as int));
                assert(out@ + unescape(cs@.skip(i as int)) =~= before + (escape_of(d) + unescape(rest.skip(2))));
            }
        }
    }
    assert(cs@.skip(i as int) =~= Seq::<char>::empty());
    assert(out@ =~= out@ + unescape(cs@.skip(i as int)));
    string_of(out.as_slice())
}

} // verus!
