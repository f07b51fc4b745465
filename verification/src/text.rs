//! Character-level text model shared by every module: whitespace, trimming,
//! splitting on a separator, joining, and the conversions between `&str`,
//! `String` and `Vec<char>`.

use vstd::prelude::*;

verus! {

/// The Unicode `White_Space` property, the set that `char::is_whitespace` tests.
pub open spec fn is_ws(c: char) -> bool {
    let u = c as u32;
    ||| 0x9 <= u <= 0xd
    ||| u == 0x20
    ||| u == 0x85
    ||| u == 0xa0
    ||| u == 0x1680
    ||| 0x2000 <= u <= 0x200a
    ||| u == 0x2028
    ||| u == 0x2029
    ||| u == 0x202f
    ||| u == 0x205f
    ||| u == 0x3000
}

/// `s` with trailing whitespace removed.
pub open spec fn trim_end(s: Seq<char>) -> Seq<char>
    decreases s.len(),
{
    if s.len() > 0 && is_ws(s.last()) {
        trim_end(s.drop_last())
    } else {
        s
    }
}

/// `s` with leading whitespace removed.
pub open spec fn trim_start(s: Seq<char>) -> Seq<char>
    decreases s.len(),
{
    if s.len() > 0 && is_ws(s[0]) {
        trim_start(s.drop_first())
    } else {
        s
    }
}

/// `s` with whitespace removed on both ends.
pub open spec fn trim(s: Seq<char>) -> Seq<char> {
    trim_start(trim_end(s))
}

/// The pieces of `s` between occurrences of `sep` (always at least one piece).
pub open spec fn split_seq(s: Seq<char>, sep: char) -> Seq<Seq<char>>
    decreases s.len(),
{
    if s.len() == 0 {
        seq![Seq::<char>::empty()]
    } else {
        let p = split_seq(s.drop_last(), sep);
        if s.last() == sep {
            p.push(Seq::<char>::empty())
        } else {
            p.update(p.len() - 1, p.last().push(s.last()))
        }
    }
}

/// The pieces of `lines` joined with `sep` between consecutive pieces.
pub open spec fn join_seq(lines: Seq<Seq<char>>, sep: Seq<char>) -> Seq<char>
    decreases lines.len(),
{
    if lines.len() == 0 {
        Seq::<char>::empty()
    } else if lines.len() == 1 {
        lines[0]
    } else {
        join_seq(lines.drop_last(), sep) + sep + lines.last()
    }
}

pub proof fn lemma_split_nonempty(s: Seq<char>, sep: char)
    ensures
        split_seq(s, sep).len() >= 1,
    decreases s.len(),
{
    if s.len() > 0 {
        lemma_split_nonempty(s.drop_last(), sep);
    }
}

/// Text without the separator is a single piece.
pub proof fn lemma_split_no_sep(s: Seq<char>, sep: char)
    requires
        !s.contains(sep),
    ensures
        split_seq(s, sep) == seq![s],
    decreases s.len(),
{
    if s.len() > 0 {
        let t = s.drop_last();
        assert(!t.contains(sep)) by {
            if t.contains(sep) {
                let k = choose|k: int| 0 <= k < t.len() && t[k] == sep;
                assert(s[k] == sep);
            }
        }
        lemma_split_no_sep(t, sep);
        assert(s[s.len() - 1] != sep);
        assert(t.push(s.last()) =~= s);
    } else {
        assert(s =~= Seq::<char>::empty());
    }
}

/// Joining the pieces of a split with the separator gives the text back.
pub proof fn lemma_join_split(s: Seq<char>, sep: char)
    ensures
        join_seq(split_seq(s, sep), seq![sep]) == s,
    decreases s.len(),
{
    if s.len() > 0 {
        let t = s.drop_last();
        lemma_join_split(t, sep);
        lemma_split_nonempty(t, sep);
        let p = split_seq(t, sep);
        if s.last() == sep {
            assert(split_seq(s, sep).drop_last() =~= p);
            assert(s =~= t + seq![sep] + Seq::<char>::empty());
        } else {
            let q = split_seq(s, sep);
            if p.len() == 1 {
                assert(q =~= seq![t.push(s.last())]);
                assert(s =~= t.push(s.last()));
            } else {
                assert(q.drop_last() =~= p.drop_last());
                let a = join_seq(p.drop_last(), seq![sep]);
                assert(t == a + seq![sep] + p.last());
                assert(s =~= t.push(s.last()));
                assert(s =~= a + seq![sep] + p.last().push(s.last()));
                assert(q.last() == p.last().push(s.last()));
            }
        }
    } else {
        assert(split_seq(s, sep) =~= seq![Seq::<char>::empty()]);
    }
}

/// Appends `c` to `s`.
#[verifier::external_body]
pub(crate) fn push_char(s: &mut String, c: char)
    ensures
        final(s)@ == old(s)@.push(c),
{
    s.push(c);
}

/// The characters of `s`, in order.
pub fn chars_of(s: &str) -> (v: Vec<char>)
    ensures
        v@ == s@,
{
    let mut v: Vec<char> = Vec::new();
    for c in it: s.chars()
        invariant
            v@ == it.seq().take(it.index() as int),
            it.seq() == s@,
    {
        v.push(c);
    }
    v
}

/// The string made of the characters of `v`.
pub fn string_of(v: &[char]) -> (s: String)
    ensures
        s@ == v@,
{
    let mut s = String::new();
    let mut i: usize = 0;
    while i < v.len()
        invariant
            i <= v@.len(),
            s@ == v@.take(i as int),
        decreases v@.len() - i,
    {
        push_char(&mut s, v[i]);
        i = i + 1;
        assert(s@ =~= v@.take(i as int));
    }
    assert(v@.take(i as int) =~= v@);
    s
}

/// Whether `c` is Unicode whitespace.
pub fn is_whitespace(c: char) -> (r: bool)
    ensures
        r == is_ws(c),
{
    let u = c as u32;
    (0x9 <= u && u <= 0xd) || u == 0x20 || u == 0x85 || u == 0xa0 || u == 0x1680 || (0x2000 <= u
        && u <= 0x200a) || u == 0x2028 || u == 0x2029 || u == 0x202f || u == 0x205f || u == 0x3000
}

/// The views of a vector of character lines.
pub open spec fn lines_view(v: Seq<Vec<char>>) -> Seq<Seq<char>> {
    Seq::new(v.len(), |i: int| v[i]@)
}

/// Whether two character slices hold the same characters.
pub fn chars_equal(a: &[char], b: &[char]) -> (r: bool)
    ensures
        r == (a@ == b@),
{
    if a.len() != b.len() {
        return false;
    }
    let mut i: usize = 0;
    while i < a.len()
        invariant
            a@.len() == b@.len(),
            i <= a@.len(),
            forall|k: int| 0 <= k < i ==> a@[k] == b@[k],
        decreases a@.len() - i,
    {
        if a[i] != b[i] {
            return false;
        }
        i = i + 1;
    }
    assert(a@ =~= b@);
    true
}

/// The pieces of `v` between occurrences of `sep`, as `str::split` yields them.
pub fn split_chars(v: &[char], sep: char) -> (r: Vec<Vec<char>>)
    ensures
        lines_view(r@) == split_seq(v@, sep),
{
    let mut out: Vec<Vec<char>> = Vec::new();
    let mut cur: Vec<char> = Vec::new();
    let mut i: usize = 0;
    while i < v.len()
        invariant
            i <= v@.len(),
            lines_view(out@).push(cur@) == split_seq(v@.take(i as int), sep),
        decreases v@.len() - i,
    {
        let c = v[i];
        let ghost before = lines_view(out@).push(cur@);
        proof {
            assert(v@.take(i + 1).drop_last() =~= v@.take(i as int));
            assert(v@.take(i + 1).last() == c);
        }
        if c == sep {
            let done = cur;
            out.push(done);
            cur = Vec::new();
            assert(lines_view(out@).push(cur@) =~= before.push(Seq::<char>::empty()));
        } else {
            cur.push(c);
            assert(lines_view(out@).push(cur@) =~= before.update(
                before.len() - 1,
                before.last().push(c),
            ));
        }
        i = i + 1;
    }
    assert(v@.take(i as int) =~= v@);
    out.push(cur);
    out
}

/// Appends `t` to `s`.
pub fn push_str(s: &mut String, t: &str)
    ensures
        final(s)@ == old(s)@ + t@,
{
    let cs = chars_of(t);
    push_chars(s, cs.as_slice());
}

/// Appends every character of `v` to `s`.
pub fn push_chars(s: &mut String, v: &[char])
    ensures
        final(s)@ == old(s)@ + v@,
{
    let mut i: usize = 0;
    while i < v.len()
        invariant
            i <= v@.len(),
            s@ == old(s)@ + v@.take(i as int),
        decreases v@.len() - i,
    {
        push_char(s, v[i]);
        i = i + 1;
        assert(s@ =~= old(s)@ + v@.take(i as int));
    }
    assert(v@.take(i as int) =~= v@);
}

/// The lines of `lines` joined with `sep` between consecutive lines.
pub fn join_lines(lines: &[Vec<char>], sep: &[char]) -> (r: String)
    ensures
        r@ == join_seq(lines_view(lines@), sep@),
{
    let mut s = String::new();
    let mut i: usize = 0;
    while i < lines.len()
        invariant
            i <= lines@.len(),
            s@ == join_seq(lines_view(lines@).take(i as int), sep@),
        decreases lines@.len() - i,
    {
        let ghost lv = lines_view(lines@);
        proof {
            assert(lv.take(i + 1).drop_last() =~= lv.take(i as int));
            assert(lv.take(i + 1).last() == lines@[i as int]@);
        }
        if i > 0 {
            push_chars(&mut s, sep);
        } else {
            assert(lv.take(1) =~= seq![lines@[0]@]);
            assert(lv.take(0) =~= Seq::<Seq<char>>::empty());
        }
        push_chars(&mut s, lines[i].as_slice());
        i = i + 1;
    }
    assert(lines_view(lines@).take(i as int) =~= lines_view(lines@));
    s
}

pub proof fn lemma_lines_view_push(v: Seq<Vec<char>>, x: Vec<char>)
    ensures
        lines_view(v.push(x)) == lines_view(v).push(x@),
{
    assert(lines_view(v.push(x)) =~= lines_view(v).push(x@));
}

/// A copy of the line `v`.
pub fn copy_chars(v: &Vec<char>) -> (r: Vec<char>)
    ensures
        r@ == v@,
{
    let r = v.clone();
    assert(r@ =~= v@);
    r
}

/// Appends copies of `src[from..to]` to `out`.
pub fn push_lines(out: &mut Vec<Vec<char>>, src: &[Vec<char>], from: usize, to: usize)
    requires
        from <= to <= src@.len(),
    ensures
        lines_view(final(out)@) == lines_view(old(out)@) + lines_view(src@).subrange(
            from as int,
            to as int,
        ),
        final(out)@.len() == old(out)@.len() + (to - from),
{
    let mut k = from;
    while k < to
        invariant
            from <= k <= to <= src@.len(),
            lines_view(out@) == lines_view(old(out)@) + lines_view(src@).subrange(
                from as int,
                k as int,
            ),
            out@.len() == old(out)@.len() + (k - from),
        decreases to - k,
    {
        let line = copy_chars(&src[k]);
        let ghost prev = out@;
        out.push(line);
        proof {
            lemma_lines_view_push(prev, line);
        }
        k = k + 1;
        assert(lines_view(out@) =~= lines_view(old(out)@) + lines_view(src@).subrange(
            from as int,
            k as int,
        ));
    }
}

/// Whether `a[af..at]` and `b[bf..bt]` hold the same lines.
pub fn line_ranges_equal(a: &[Vec<char>], af: usize, at: usize, b: &[Vec<char>], bf: usize, bt: usize) -> (r: bool)
    requires
        af <= at <= a@.len(),
        bf <= bt <= b@.len(),
    ensures
        r == (lines_view(a@).subrange(af as int, at as int) == lines_view(b@).subrange(
            bf as int,
            bt as int,
        )),
{
    let ghost x = lines_view(a@).subrange(af as int, at as int);
    let ghost y = lines_view(b@).subrange(bf as int, bt as int);
    if at - af != bt - bf {
        assert(x.len() != y.len());
        return false;
    }
    let mut k: usize = 0;
    while k < at - af
        invariant
            af <= at <= a@.len(),
            bf <= bt <= b@.len(),
            at - af == bt - bf,
            k <= at - af,
            x == lines_view(a@).subrange(af as int, at as int),
            y == lines_view(b@).subrange(bf as int, bt as int),
            forall|t: int| 0 <= t < k ==> x[t] == y[t],
        decreases at - af - k,
    {
        if !chars_equal(a[af + k].as_slice(), b[bf + k].as_slice()) {
            assert(x[k as int] == a@[af + k]@);
            assert(y[k as int] == b@[bf + k]@);
            return false;
        }
        assert(x[k as int] == a@[af + k]@);
        assert(y[k as int] == b@[bf + k]@);
        k = k + 1;
    }
    assert(x =~= y);
    true
}

/// The length of `v` once trailing whitespace is removed.
pub fn trim_end_len(v: &[char]) -> (k: usize)
    ensures
        k <= v@.len(),
        v@.take(k as int) == trim_end(v@),
{
    let mut k = v.len();
    assert(v@.take(k as int) =~= v@);
    while k > 0 && is_whitespace(v[k - 1])
        invariant
            k <= v@.len(),
            trim_end(v@.take(k as int)) == trim_end(v@),
        decreases k,
    {
        assert(v@.take(k as int).drop_last() =~= v@.take(k - 1));
        k = k - 1;
    }
    k
}

/// The number of leading whitespace characters of `v`.
pub fn trim_start_len(v: &[char]) -> (k: usize)
    ensures
        k <= v@.len(),
        v@.skip(k as int) == trim_start(v@),
{
    let mut k: usize = 0;
    assert(v@.skip(0) =~= v@);
    while k < v.len() && is_whitespace(v[k])
        invariant
            k <= v@.len(),
            trim_start(v@.skip(k as int)) == trim_start(v@),
        decreases v@.len() - k,
    {
        assert(v@.skip(k as int).drop_first() =~= v@.skip(k + 1));
        k = k + 1;
    }
    k
}

/// An owned copy of `s`.
pub fn owned(s: &str) -> (r: String)
    ensures
        r@ == s@,
{
    let cs = chars_of(s);
    string_of(cs.as_slice())
}

/// Whether two strings hold the same characters.
pub fn str_eq(a: &str, b: &str) -> (r: bool)
    ensures
        r == (a@ == b@),
{
    let x = chars_of(a);
    let y = chars_of(b);
    chars_equal(x.as_slice(), y.as_slice())
}

/// Calls `Box::<str>::from`; the box holds the characters of `s`.
#[verifier::external_body]
pub(crate) fn boxed_str(s: &str) -> (b: Box<str>)
    ensures
        b@ == s@,
{
    Box::from(s)
}

/// Whether `c` occurs in `v`.
pub fn contains_char(v: &[char], c: char) -> (r: bool)
    ensures
        r == v@.contains(c),
{
    let mut i: usize = 0;
    while i < v.len()
        invariant
            i <= v@.len(),
            forall|k: int| 0 <= k < i ==> v@[k] != c,
        decreases v@.len() - i,
    {
        if v[i] == c {
            return true;
        }
        i = i + 1;
    }
    false
}

/// The encoding of joined text is the joined encodings.
pub proof fn lemma_encode_append(a: Seq<char>, b: Seq<char>)
    ensures
        vstd::utf8::encode_utf8(a + b) == vstd::utf8::encode_utf8(a) + vstd::utf8::encode_utf8(b),
    decreases a.len(),
{
    if a.len() > 0 {
        lemma_encode_append(a.drop_first(), b);
        assert((a + b).drop_first() =~= a.drop_first() + b);
        assert((a + b)[0] == a[0]);
    } else {
        assert(a + b =~= b);
    }
}

/// Joining two non-empty runs of pieces puts the separator between them.
pub proof fn lemma_join_append(a: Seq<Seq<char>>, b: Seq<Seq<char>>, sep: Seq<char>)
    requires
        a.len() > 0,
        b.len() > 0,
    ensures
        join_seq(a + b, sep) == join_seq(a, sep) + sep + join_seq(b, sep),
    decreases b.len(),
{
    if b.len() == 1 {
        assert((a + b).drop_last() =~= a);
        assert((a + b).last() == b[0]);
    } else {
        lemma_join_append(a, b.drop_last(), sep);
        assert((a + b).drop_last() =~= a + b.drop_last());
        assert((a + b).last() == b.last());
    }
}

/// No piece of a split holds the separator.
pub proof fn lemma_split_pieces_clean(s: Seq<char>, sep: char)
    ensures
        forall|i: int| 0 <= i < split_seq(s, sep).len() ==> !(#[trigger] split_seq(s, sep)[i]).contains(sep),
    decreases s.len(),
{
    if s.len() > 0 {
        let t = s.drop_last();
        lemma_split_pieces_clean(t, sep);
        lemma_split_nonempty(t, sep);
        let p = split_seq(t, sep);
        if s.last() != sep {
            let q = split_seq(s, sep);
            assert forall|i: int| 0 <= i < q.len() implies !(#[trigger] q[i]).contains(sep) by {
                if i == q.len() - 1 {
                    if q[i].contains(sep) {
                        let k = choose|k: int| 0 <= k < q[i].len() && q[i][k] == sep;
                        assert(q[i] == p.last().push(s.last()));
                        if k < p.last().len() {
                            assert(p.last()[k] == sep);
                            assert(p[p.len() - 1].contains(sep));
                        }
                    }
                } else {
                    assert(q[i] == p[i]);
                }
            }
        }
    }
}

pub proof fn lemma_split_after_sep(a: Seq<char>, b: Seq<char>, sep: char)
    requires
        !b.contains(sep),
    ensures
        split_seq(a + seq![sep] + b, sep) == split_seq(a, sep).push(b),
    decreases b.len(),
{
    let s = a + seq![sep] + b;
    if b.len() == 0 {
        assert(s.drop_last() =~= a);
        assert(b =~= Seq::<char>::empty());
    } else {
        let c = b.drop_last();
        assert(!c.contains(sep)) by {
            if c.contains(sep) {
                let k = choose|k: int| 0 <= k < c.len() && c[k] == sep;
                assert(b[k] == sep);
            }
        }
        lemma_split_after_sep(a, c, sep);
        assert(s.drop_last() =~= a + seq![sep] + c);
        assert(s.last() == b.last());
        assert(b.last() != sep) by {
            assert(b[b.len() - 1] == b.last());
        }
        assert(c.push(b.last()) =~= b);
        assert(split_seq(s, sep) =~= split_seq(a, sep).push(c).update(
            split_seq(a, sep).len() as int,
            c.push(b.last()),
        ));
    }
}

/// Splitting the join of pieces that hold no separator gives the pieces
/// back.
pub proof fn lemma_split_join(p: Seq<Seq<char>>, sep: char)
    requires
        p.len() > 0,
        forall|i: int| 0 <= i < p.len() ==> !(#[trigger] p[i]).contains(sep),
    ensures
        split_seq(join_seq(p, seq![sep]), sep) == p,
    decreases p.len(),
{
    if p.len() == 1 {
        lemma_split_no_sep(p[0], sep);
        assert(seq![p[0]] =~= p);
    } else {
        let q = p.drop_last();
        lemma_split_join(q, sep);
        assert(!p.last().contains(sep)) by {
            assert(p[p.len() - 1] == p.last());
        }
        lemma_split_after_sep(join_seq(q, seq![sep]), p.last(), sep);
        assert(join_seq(q, seq![sep]) + seq![sep] + p.last() == join_seq(p, seq![sep]));
        assert(q.push(p.last()) =~= p);
    }
}

/// A character the text lacks is in none of its pieces.
pub proof fn lemma_split_pieces_avoid(s: Seq<char>, sep: char, c: char)
    requires
        !s.contains(c),
    ensures
        forall|i: int| 0 <= i < split_seq(s, sep).len() ==> !(#[trigger] split_seq(s, sep)[i]).contains(c),
    decreases s.len(),
{
    if s.len() > 0 {
        let t = s.drop_last();
        assert(!t.contains(c)) by {
            if t.contains(c) {
                let k = choose|k: int| 0 <= k < t.len() && t[k] == c;
                assert(s[k] == c);
            }
        }
        lemma_split_pieces_avoid(t, sep, c);
        lemma_split_nonempty(t, sep);
        let p = split_seq(t, sep);
        let q = split_seq(s, sep);
        assert(s[s.len() - 1] != c);
        assert forall|i: int| 0 <= i < q.len() implies !(#[trigger] q[i]).contains(c) by {
            if s.last() != sep && i == q.len() - 1 {
                if q[i].contains(c) {
                    let k = choose|k: int| 0 <= k < q[i].len() && q[i][k] == c;
                    assert(q[i] == p.last().push(s.last()));
                    if k < p.last().len() {
                        assert(p.last()[k] == c);
                        assert(p[p.len() - 1].contains(c));
                    }
                }
            } else if i < p.len() {
                assert(q[i] == p[i]);
            } else {
                assert(q[i] =~= Seq::<char>::empty());
            }
        }
    }
}

} // verus!
