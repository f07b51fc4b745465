//! Line-ending detection, CRLF/CR to LF normalization, and BOM stripping.
//! Text is brought to LF before it is edited and given its original line
//! endings back when it is written.

use vstd::prelude::*;
use crate::text::{chars_of, push_char};

verus! {

/// Line ending style.
#[derive(Clone, Copy, Debug, PartialEq, Eq, Structural)]
pub enum LineEnding {
    Lf,
    Crlf,
}

/// The characters of a line ending.
pub open spec fn ending_chars(e: LineEnding) -> Seq<char> {
    match e {
        LineEnding::Lf => seq!['\n'],
        LineEnding::Crlf => seq!['\r', '\n'],
    }
}

impl LineEnding {
    /// The line ending as text.
    pub fn as_str(self) -> (s: &'static str)
        ensures
            s@ == ending_chars(self),
    {
        match self {
            LineEnding::Lf => {
                proof { reveal_strlit("\n"); }
                "\n"
            },
            LineEnding::Crlf => {
                proof { reveal_strlit("\r\n"); }
                "\r\n"
            },
        }
    }
}

/// The first LF of `s` is at `i`.
pub open spec fn first_lf_at(s: Seq<char>, i: int) -> bool {
    &&& 0 <= i < s.len()
    &&& s[i] == '\n'
    &&& forall|j: int| 0 <= j < i ==> s[j] != '\n'
}

/// CRLF when the first LF of `s` comes right after a CR; LF otherwise,
/// including when `s` has no LF.
pub open spec fn detect_spec(s: Seq<char>) -> LineEnding {
    if exists|i: int| first_lf_at(s, i) && i > 0 && s[i - 1] == '\r' {
        LineEnding::Crlf
    } else {
        LineEnding::Lf
    }
}

/// `s` with every CRLF and every lone CR turned into LF.
pub open spec fn normalize_spec(s: Seq<char>) -> Seq<char>
    decreases s.len(),
{
    if s.len() == 0 {
        Seq::empty()
    } else if s[0] == '\r' {
        if s.len() > 1 && s[1] == '\n' {
            seq!['\n'] + normalize_spec(s.skip(2))
        } else {
            seq!['\n'] + normalize_spec(s.skip(1))
        }
    } else {
        seq![s[0]] + normalize_spec(s.skip(1))
    }
}

/// `s` with every LF turned into CRLF.
pub open spec fn crlf_spec(s: Seq<char>) -> Seq<char>
    decreases s.len(),
{
    if s.len() == 0 {
        Seq::empty()
    } else if s[0] == '\n' {
        seq!['\r', '\n'] + crlf_spec(s.skip(1))
    } else {
        seq![s[0]] + crlf_spec(s.skip(1))
    }
}

/// The style of the first line ending in `content`; LF when there is none.
pub fn detect_line_ending(content: &str) -> (e: LineEnding)
    ensures
        e == detect_spec(content@),
{
    let cs = chars_of(content);
    let mut i: usize = 0;
    while i < cs.len()
        invariant
            i <= cs@.len(),
            cs@ == content@,
            forall|j: int| 0 <= j < i ==> cs@[j] != '\n',
            i > 0 ==> cs@[i - 1] != '\r' || i == cs@.len() || cs@[i as int] != '\n',
        decreases cs@.len() - i,
    {
        if cs[i] == '\r' && i + 1 < cs.len() && cs[i + 1] == '\n' {
            assert(first_lf_at(content@, i + 1));
            return LineEnding::Crlf;
        }
        if cs[i] == '\n' {
            assert(first_lf_at(content@, i as int));
            proof {
                if exists|k: int| first_lf_at(content@, k) && k > 0 && content@[k - 1] == '\r' {
                    let k = choose|k: int| first_lf_at(content@, k) && k > 0 && content@[k - 1] == '\r';
                    assert(k == i);
                }
            }
            return LineEnding::Lf;
        }
        i = i + 1;
    }
    proof {
        if exists|k: int| first_lf_at(content@, k) && k > 0 && content@[k - 1] == '\r' {
            let k = choose|k: int| first_lf_at(content@, k) && k > 0 && content@[k - 1] == '\r';
            assert(cs@[k] == '\n');
        }
    }
    LineEnding::Lf
}

/// Turns every line ending (CRLF, or a lone CR) into LF. Works by character,
/// so multi-byte characters pass through unchanged.
pub fn normalize_to_lf(text: &str) -> (out: String)
    ensures
        out@ == normalize_spec(text@),
{
    let cs = chars_of(text);
    let mut out = String::new();
    let mut i: usize = 0;
    assert(cs@.skip(0) =~= cs@);
    while i < cs.len()
        invariant
            i <= cs@.len(),
            cs@ == text@,
            out@ + normalize_spec(cs@.skip(i as int)) == normalize_spec(text@),
        decreases cs@.len() - i,
    {
        let c = cs[i];
        let ghost rest = cs@.skip(i as int);
        if c == '\r' {
            if i + 1 < cs.len() && cs[i + 1] == '\n' {
                assert(rest.skip(2) =~= cs@.skip(i + 2));
                i = i + 2;
            } else {
                assert(rest.skip(1) =~= cs@.skip(i + 1));
                i = i + 1;
            }
            push_char(&mut out, '\n');
        } else {
            assert(rest.skip(1) =~= cs@.skip(i + 1));
            push_char(&mut out, c);
            i = i + 1;
        }
        assert(out@ + normalize_spec(cs@.skip(i as int)) =~= normalize_spec(text@));
    }
    assert(cs@.skip(i as int) =~= Seq::<char>::empty());
    assert(out@ + Seq::<char>::empty() =~= out@);
    out
}

/// Re-encodes LF text with the given line ending.
pub fn restore_line_endings(text: &str, ending: LineEnding) -> (out: String)
    ensures
        ending == LineEnding::Lf ==> out@ == text@,
        ending == LineEnding::Crlf ==> out@ == crlf_spec(text@),
{
    let cs = chars_of(text);
    let mut out = String::new();
    let mut i: usize = 0;
    assert(cs@.skip(0) =~= cs@);
    match ending {
        LineEnding::Lf => {
            while i < cs.len()
                invariant
                    i <= cs@.len(),
                    cs@ == text@,
                    out@ == cs@.take(i as int),
                decreases cs@.len() - i,
            {
                push_char(&mut out, cs[i]);
                i = i + 1;
                assert(out@ =~= cs@.take(i as int));
            }
            assert(cs@.take(i as int) =~= cs@);
        },
        LineEnding::Crlf => {
            while i < cs.len()
                invariant
                    i <= cs@.len(),
                    cs@ == text@,
                    out@ + crlf_spec(cs@.skip(i as int)) == crlf_spec(text@),
                decreases cs@.len() - i,
            {
                let c = cs[i];
                assert(cs@.skip(i as int).skip(1) =~= cs@.skip(i + 1));
                if c == '\n' {
                    push_char(&mut out, '\r');
                    push_char(&mut out, '\n');
                } else {
                    push_char(&mut out, c);
                }
                i = i + 1;
                assert(out@ + crlf_spec(cs@.skip(i as int)) =~= crlf_spec(text@));
            }
            assert(cs@.skip(i as int) =~= Seq::<char>::empty());
            assert(out@ + Seq::<char>::empty() =~= out@);
        },
    }
    out
}

/// The result of stripping a leading UTF-8 BOM.
pub struct BomResult {
    pub bom: String,
    pub text: String,
}

/// The byte order mark U+FEFF.
pub open spec fn bom_char() -> char {
    '\u{FEFF}'
}

/// Splits a leading BOM (U+FEFF) off `content`.
pub fn strip_bom(content: &str) -> (r: BomResult)
    ensures
        content@.len() > 0 && content@[0] == bom_char() ==> r.bom@ == seq![bom_char()]
            && r.text@ == content@.skip(1),
        !(content@.len() > 0 && content@[0] == bom_char()) ==> r.bom@ == Seq::<char>::empty()
            && r.text@ == content@,
        r.bom@ + r.text@ == content@,
{
    let cs = chars_of(content);
    let mut bom = String::new();
    let mut text = String::new();
    let mut start: usize = 0;
    if cs.len() > 0 && cs[0] == '\u{FEFF}' {
        push_char(&mut bom, '\u{FEFF}');
        start = 1;
    }
    let mut i = start;
    while i < cs.len()
        invariant
            start <= i <= cs@.len(),
            start <= 1,
            cs@ == content@,
            text@ == cs@.subrange(start as int, i as int),
        decreases cs@.len() - i,
    {
        push_char(&mut text, cs[i]);
        i = i + 1;
        assert(text@ =~= cs@.subrange(start as int, i as int));
    }
    assert(cs@.subrange(start as int, i as int) =~= cs@.skip(start as int));
    assert(bom@ + text@ =~= content@);
    BomResult { bom, text }
}

proof fn lemma_normalize_no_cr(s: Seq<char>)
    ensures
        forall|i: int| 0 <= i < normalize_spec(s).len() ==> normalize_spec(s)[i] != '\r',
    decreases s.len(),
{
    if s.len() > 0 {
        let rest = if s[0] == '\r' && s.len() > 1 && s[1] == '\n' {
            s.skip(2)
        } else {
            s.skip(1)
        };
        lemma_normalize_no_cr(rest);
        let n = normalize_spec(s);
        assert(n.drop_first() =~= normalize_spec(rest));
        assert forall|i: int| 0 <= i < n.len() implies n[i] != '\r' by {
            if i > 0 {
                assert(n[i] == normalize_spec(rest)[i - 1]);
            }
        }
    }
}

/// Normalized text holds no CR.
pub proof fn law_normalized_has_no_cr(s: Seq<char>)
    ensures
        !normalize_spec(s).contains('\r'),
{
    lemma_normalize_no_cr(s);
}

/// Text without CR is already normalized.
pub proof fn law_normalize_fixes_lf_text(s: Seq<char>)
    requires
        !s.contains('\r'),
    ensures
        normalize_spec(s) == s,
    decreases s.len(),
{
    if s.len() > 0 {
        assert(!s.skip(1).contains('\r')) by {
            if s.skip(1).contains('\r') {
                let k = choose|k: int| 0 <= k < s.skip(1).len() && s.skip(1)[k] == '\r';
                assert(s[k + 1] == '\r');
            }
        }
        law_normalize_fixes_lf_text(s.skip(1));
        assert(s[0] != '\r');
        assert(seq![s[0]] + s.skip(1) =~= s);
    }
}

/// Normalizing twice is normalizing once.
pub proof fn law_normalize_idempotent(s: Seq<char>)
    ensures
        normalize_spec(normalize_spec(s)) == normalize_spec(s),
{
    law_normalized_has_no_cr(s);
    law_normalize_fixes_lf_text(normalize_spec(s));
}

/// LF text written back with CRLF endings normalizes to itself.
pub proof fn law_crlf_round_trip(s: Seq<char>)
    requires
        !s.contains('\r'),
    ensures
        normalize_spec(crlf_spec(s)) == s,
    decreases s.len(),
{
    if s.len() > 0 {
        assert(!s.skip(1).contains('\r')) by {
            if s.skip(1).contains('\r') {
                let k = choose|k: int| 0 <= k < s.skip(1).len() && s.skip(1)[k] == '\r';
                assert(s[k + 1] == '\r');
            }
        }
        law_crlf_round_trip(s.skip(1));
        let t = crlf_spec(s);
        if s[0] == '\n' {
            assert(t == seq!['\r', '\n'] + crlf_spec(s.skip(1)));
            assert(t.skip(2) =~= crlf_spec(s.skip(1)));
            assert(t[0] == '\r' && t[1] == '\n');
        } else {
            assert(s[0] != '\r');
            assert(t.skip(1) =~= crlf_spec(s.skip(1)));
            assert(t[0] == s[0]);
        }
        assert(seq![s[0]] + s.skip(1) =~= s);
    }
}

} // verus!
