//! Lowering of block edits (`SWAP.BLK N:`, `DEL.BLK N`, `INS.BLK.POST N:`,
//! `INS.BLK.PRE N:`) into plain inserts and deletes once a resolver has
//! found the block's span in the file's text.

use vstd::prelude::*;
use crate::ascii::{decimal, push_decimal};
use crate::apply::strings_view;
use crate::builtin_resolver::{BlockResolver, BlockResolverRequest, BlockSpan};
use crate::edit::{Anchor, BlockMode, Cursor, Edit, EditV, InsertMode, edits_view};
use crate::text::{owned, push_str};

verus! {

/// What a block edit asks for.
#[derive(Clone, Copy, Debug, PartialEq, Eq, Structural)]
pub enum BlockOp {
    InsertAfter,
    InsertBefore,
    Delete,
    Replace,
}

/// The operation of a block edit: its insert mode if it has one, else a
/// delete when it carries no payload and a replace when it does.
pub open spec fn block_op(mode: Option<BlockMode>, no_payload: bool) -> BlockOp {
    match mode {
        Some(BlockMode::InsertAfter) => BlockOp::InsertAfter,
        Some(BlockMode::InsertBefore) => BlockOp::InsertBefore,
        None => if no_payload { BlockOp::Delete } else { BlockOp::Replace },
    }
}

/// The operation's name in messages.
pub open spec fn op_name(op: BlockOp) -> Seq<char> {
    match op {
        BlockOp::InsertAfter => "insert_after"@,
        BlockOp::InsertBefore => "insert_before"@,
        BlockOp::Delete => "delete"@,
        BlockOp::Replace => "replace"@,
    }
}

/// The refusal when no resolver is configured.
pub open spec fn no_resolver_msg(line_num: nat) -> Seq<char> {
    "line "@ + decimal(line_num)
        + ": SWAP.BLK/DEL.BLK/INS.BLK.POST are not available here (no block resolver configured). Use a concrete line range."@
}

/// The refusal when the resolver finds no block.
pub open spec fn unresolved_msg(line_num: nat, op: BlockOp, line: nat) -> Seq<char> {
    "line "@ + decimal(line_num) + ": cannot resolve block anchor for `"@ + op_name(op) + "` on line "@
        + decimal(line)
        + " \u{2014} unsupported language, blank/closer line, or parse error. Use a concrete line range."@
}

/// The refusal when the block found is a single line.
pub open spec fn single_line_msg(line_num: nat, op: BlockOp, start: nat) -> Seq<char> {
    "line "@ + decimal(line_num) + ": `"@ + op_name(op) + "` resolved a single-line block (line "@
        + decimal(start) + ") \u{2014} line "@ + decimal(line_num)
        + " is a bare statement, not the opening line of a multi-line construct. Use a concrete line range instead."@
}

/// One insert per payload line, numbered from `synth`.
pub open spec fn payload_inserts(
    p: Seq<Seq<char>>,
    cursor: Cursor,
    line_num: usize,
    synth: nat,
    mode: Option<InsertMode>,
    block_start: Option<usize>,
) -> Seq<EditV> {
    Seq::new(
        p.len(),
        |k: int|
            EditV::Insert {
                cursor,
                text: p[k],
                line_num,
                index: (synth + k) as usize,
                mode,
                block_start,
                expected_hash: None,
            },
    )
}

/// One delete per line of `start..=end`, numbered from `synth`.
pub open spec fn range_deletes(start: int, end: int, line_num: usize, synth: nat) -> Seq<EditV> {
    Seq::new(
        if start <= end { (end - start + 1) as nat } else { 0 },
        |k: int|
            EditV::Delete {
                anchor: Anchor { line: (start + k) as usize },
                line_num,
                index: (synth + k) as usize,
                expected_hash: None,
            },
    )
}

/// The plain edits for block edit `e` given the resolver's answer `span`
/// (`present` says whether a resolver was configured), numbered from
/// `synth`; or the refusal.
pub open spec fn lower_one_spec(e: EditV, span: Option<BlockSpan>, present: bool, synth: nat) -> Result<
    Seq<EditV>,
    Seq<char>,
> {
    match e {
        EditV::Block { anchor, payloads, line_num, mode, .. } => {
            let op = block_op(mode, payloads.len() == 0);
            match span {
                None => match op {
                    BlockOp::InsertAfter => Ok(
                        payload_inserts(payloads, Cursor::AfterAnchor(anchor), line_num, synth, None, None),
                    ),
                    BlockOp::InsertBefore => Ok(
                        payload_inserts(payloads, Cursor::BeforeAnchor(anchor), line_num, synth, None, None),
                    ),
                    _ => if !present {
                        Err(no_resolver_msg(line_num as nat))
                    } else {
                        Err(unresolved_msg(line_num as nat, op, anchor.line as nat))
                    },
                },
                Some(b) => if b.start == b.end {
                    Err(single_line_msg(line_num as nat, op, b.start as nat))
                } else {
                    match op {
                        BlockOp::InsertAfter => Ok(
                            payload_inserts(
                                payloads,
                                Cursor::AfterAnchor(Anchor { line: b.end }),
                                line_num,
                                synth,
                                None,
                                Some(b.start),
                            ),
                        ),
                        BlockOp::InsertBefore => Ok(
                            payload_inserts(
                                payloads,
                                Cursor::BeforeAnchor(Anchor { line: b.start }),
                                line_num,
                                synth,
                                None,
                                None,
                            ),
                        ),
                        _ => Ok(
                            payload_inserts(
                                payloads,
                                Cursor::BeforeAnchor(Anchor { line: b.start }),
                                line_num,
                                synth,
                                Some(InsertMode::Replacement),
                                None,
                            ) + range_deletes(
                                b.start as int,
                                b.end as int,
                                line_num,
                                synth + payloads.len(),
                            ),
                        ),
                    }
                },
            }
        },
        _ => Ok(seq![e]),
    }
}

/// The edits after lowering the first `ans.len()` edits of `es`, where
/// `ans[k]` is the resolver's answer for edit `k` (used only when it is a
/// block edit), with the count of synthesized edits; or the first refusal.
pub open spec fn lower_prefix(es: Seq<EditV>, ans: Seq<Option<BlockSpan>>, present: bool) -> Result<
    (Seq<EditV>, nat),
    Seq<char>,
>
    decreases ans.len(),
{
    if ans.len() == 0 {
        Ok((Seq::empty(), 0))
    } else {
        let k = ans.len() - 1;
        match lower_prefix(es, ans.drop_last(), present) {
            Err(m) => Err(m),
            Ok((acc, synth)) => if es[k] is Block {
                match lower_one_spec(es[k], ans[k], present, synth) {
                    Ok(out) => Ok((acc + out, synth + out.len())),
                    Err(m) => Err(m),
                }
            } else {
                Ok((acc.push(es[k]), synth))
            },
        }
    }
}

/// `r` is the outcome `s` of a lowering.
pub open spec fn lowered_as(r: Result<Vec<Edit>, String>, s: Result<(Seq<EditV>, nat), Seq<char>>) -> bool {
    match s {
        Ok((v, _)) => r is Ok && edits_view(r->Ok_0@) == v,
        Err(m) => r is Err && r->Err_0@ == m,
    }
}

/// Once a lowering is refused, later answers do not change the refusal.
pub proof fn lemma_refusal_persists(es: Seq<EditV>, ans: Seq<Option<BlockSpan>>, more: Seq<Option<BlockSpan>>, present: bool)
    requires
        lower_prefix(es, ans, present) is Err,
    ensures
        lower_prefix(es, ans + more, present) == lower_prefix(es, ans, present),
    decreases more.len(),
{
    if more.len() > 0 {
        lemma_refusal_persists(es, ans, more.drop_last(), present);
        assert((ans + more).drop_last() =~= ans + more.drop_last());
    } else {
        assert(ans + more =~= ans);
    }
}


/// After lowering, no block edit remains.
pub proof fn law_lowering_leaves_no_block_edits(es: Seq<EditV>, ans: Seq<Option<BlockSpan>>, present: bool)
    ensures
        lower_prefix(es, ans, present) matches Ok((v, _)) ==> forall|k: int| 0 <= k < v.len() ==> !(#[trigger] v[k] is Block),
    decreases ans.len(),
{
    if ans.len() > 0 {
        let k = ans.len() - 1;
        law_lowering_leaves_no_block_edits(es, ans.drop_last(), present);
        if let Ok((acc, synth)) = lower_prefix(es, ans.drop_last(), present) {
            if es[k] is Block {
                if let Ok(out) = lower_one_spec(es[k], ans[k], present, synth) {
                    assert forall|m: int| 0 <= m < out.len() implies !(#[trigger] out[m] is Block) by {
                        match es[k] {
                            EditV::Block { anchor, payloads, line_num, mode, .. } => {
                                let op = block_op(mode, payloads.len() == 0);
                                match ans[k] {
                                    Some(b) => {
                                        let p = payload_inserts(
                                            payloads,
                                            Cursor::BeforeAnchor(Anchor { line: b.start }),
                                            line_num,
                                            synth,
                                            Some(InsertMode::Replacement),
                                            None,
                                        );
                                        if !(op is InsertAfter) && !(op is InsertBefore) && m >= p.len() {
                                            assert(out[m] == range_deletes(
                                                b.start as int,
                                                b.end as int,
                                                line_num,
                                                synth + payloads.len(),
                                            )[m - p.len()]);
                                        }
                                    },
                                    None => {},
                                }
                            },
                            _ => {},
                        }
                    }
                    assert forall|m: int| 0 <= m < (acc + out).len() implies !(#[trigger] (acc + out)[m] is Block) by {
                        if m < acc.len() {
                            assert((acc + out)[m] == acc[m]);
                        } else {
                            assert((acc + out)[m] == out[m - acc.len()]);
                        }
                    }
                }
            } else {
                let v = acc.push(es[k]);
                assert forall|m: int| 0 <= m < v.len() implies !(#[trigger] v[m] is Block) by {
                    if m < acc.len() {
                        assert(v[m] == acc[m]);
                    }
                }
            }
        }
    }
}

/// Edits without block edits come out of lowering unchanged, whatever the
/// resolver would answer.
pub proof fn law_lowering_keeps_plain_edits(es: Seq<EditV>, ans: Seq<Option<BlockSpan>>, present: bool)
    requires
        ans.len() <= es.len(),
        forall|k: int| 0 <= k < es.len() ==> !(#[trigger] es[k] is Block),
    ensures
        lower_prefix(es, ans, present) == Ok::<(Seq<EditV>, nat), Seq<char>>((es.take(ans.len() as int), 0)),
    decreases ans.len(),
{
    if ans.len() > 0 {
        let k = ans.len() - 1;
        law_lowering_keeps_plain_edits(es, ans.drop_last(), present);
        assert(es.take(k).push(es[k]) =~= es.take(ans.len() as int));
    } else {
        assert(es.take(0) =~= Seq::<EditV>::empty());
    }
}

/// Whether some edit is a block edit.
pub fn has_block_edit(edits: &[Edit]) -> (r: bool)
    ensures
        r == exists|k: int| 0 <= k < edits@.len() && (#[trigger] edits@[k])@ is Block,
{
    let mut i: usize = 0;
    while i < edits.len()
        invariant
            i <= edits@.len(),
            forall|k: int| 0 <= k < i ==> !((#[trigger] edits@[k])@ is Block),
        decreases edits@.len() - i,
    {
        if let Edit::Block { .. } = &edits[i] {
            assert(edits@[i as int]@ is Block);
            return true;
        }
        i = i + 1;
    }
    false
}

/// Appends one insert per payload line.
fn push_payload_inserts(
    out: &mut Vec<Edit>,
    payloads: &Vec<String>,
    cursor: Cursor,
    line_num: usize,
    synth: usize,
    mode: Option<InsertMode>,
    block_start: Option<usize>,
) -> (s: usize)
    requires
        synth <= old(out)@.len(),
    ensures
        s == synth + payloads@.len(),
        s <= final(out)@.len(),
        edits_view(final(out)@) == edits_view(old(out)@) + payload_inserts(
            strings_view(payloads@),
            cursor,
            line_num,
            synth as nat,
            mode,
            block_start,
        ),
{
    let ghost p = strings_view(payloads@);
    let ghost base = edits_view(out@);
    let mut s = synth;
    let mut k: usize = 0;
    while k < payloads.len()
        invariant
            k <= payloads@.len(),
            s == synth + k,
            s <= out.len(),
            p == strings_view(payloads@),
            edits_view(out@) == base + payload_inserts(p, cursor, line_num, synth as nat, mode, block_start).take(
                k as int,
            ),
        decreases payloads@.len() - k,
    {
        let ghost before = out@;
        out.push(
            Edit::Insert {
                cursor,
                text: payloads[k].clone(),
                line_num,
                index: s,
                mode,
                block_start,
                expected_hash: None,
            },
        );
        assert(s < out.len());
        proof {
            let full = payload_inserts(p, cursor, line_num, synth as nat, mode, block_start);
            assert(edits_view(out@) =~= edits_view(before).push(out@.last()@));
            assert(full.take(k + 1) =~= full.take(k as int).push(full[k as int]));
        }
        s = s + 1;
        k = k + 1;
    }
    assert(payload_inserts(p, cursor, line_num, synth as nat, mode, block_start).take(k as int)
        =~= payload_inserts(p, cursor, line_num, synth as nat, mode, block_start));
    s
}

/// Appends one delete per line of `start..=end`.
fn push_range_deletes(out: &mut Vec<Edit>, start: usize, end: usize, line_num: usize, synth: usize) -> (s: usize)
    requires
        synth <= old(out)@.len(),
    ensures
        s <= final(out)@.len(),
        s == synth + range_deletes(start as int, end as int, line_num, synth as nat).len(),
        edits_view(final(out)@) == edits_view(old(out)@) + range_deletes(
            start as int,
            end as int,
            line_num,
            synth as nat,
        ),
{
    let ghost base = edits_view(out@);
    let ghost full = range_deletes(start as int, end as int, line_num, synth as nat);
    if start > end {
        assert(full =~= Seq::<EditV>::empty());
        assert(edits_view(out@) =~= base + full);
        return synth;
    }
    let mut s = synth;
    let mut line = start;
    loop
        invariant
            start <= line <= end,
            s == synth + (line - start),
            s <= out.len(),
            base == edits_view(old(out)@),
            full == range_deletes(start as int, end as int, line_num, synth as nat),
            edits_view(out@) == base + full.take(line - start),
        decreases end - line,
    {
        let ghost before = out@;
        out.push(Edit::Delete { anchor: Anchor { line }, line_num, index: s, expected_hash: None });
        proof {
            assert(edits_view(out@) =~= edits_view(before).push(out@.last()@));
            assert(full.take(line - start + 1) =~= full.take(line - start).push(full[line - start]));
            assert(out@.last()@ == full[line - start]);
            assert(edits_view(out@) =~= base + full.take(line - start + 1));
        }
        assert(s < out.len());
        s = s + 1;
        if line == end {
            assert(full.take(line - start + 1) =~= full);
            assert(edits_view(out@) =~= base + full);
            return s;
        }
        line = line + 1;
    }
}

/// Appends the plain edits for block edit `e` given the answer `span`.
fn lower_one(e: &Edit, span: Option<BlockSpan>, present: bool, synth: usize, out: &mut Vec<Edit>) -> (r: Result<
    usize,
    String,
>)
    requires
        e@ is Block,
        synth <= old(out)@.len(),
    ensures
        match lower_one_spec(e@, span, present, synth as nat) {
            Ok(v) => r is Ok && r->Ok_0 == synth + v.len() && r->Ok_0 <= final(out)@.len()
                && edits_view(final(out)@) == edits_view(old(out)@) + v,
            Err(m) => r is Err && r->Err_0@ == m,
        },
{
    let (anchor, payloads, line_num, mode) = match e {
        Edit::Block { anchor, payloads, line_num, mode, .. } => (*anchor, payloads, *line_num, *mode),
        _ => {
            return Ok(synth);
        },
    };
    let op = match mode {
        Some(BlockMode::InsertAfter) => BlockOp::InsertAfter,
        Some(BlockMode::InsertBefore) => BlockOp::InsertBefore,
        None => if payloads.len() == 0 { BlockOp::Delete } else { BlockOp::Replace },
    };
    let ghost p = strings_view(payloads@);
    match span {
        None => {
            match op {
                BlockOp::InsertAfter => {
                    return Ok(
                        push_payload_inserts(out, payloads, Cursor::AfterAnchor(anchor), line_num, synth, None, None),
                    );
                },
                BlockOp::InsertBefore => {
                    return Ok(
                        push_payload_inserts(out, payloads, Cursor::BeforeAnchor(anchor), line_num, synth, None, None),
                    );
                },
                _ => {},
            }
            let mut m = String::new();
            push_str(&mut m, "line ");
            push_decimal(&mut m, line_num);
            if !present {
                push_str(
                    &mut m,
                    ": SWAP.BLK/DEL.BLK/INS.BLK.POST are not available here (no block resolver configured). Use a concrete line range.",
                );
                assert(m@ =~= no_resolver_msg(line_num as nat));
            } else {
                push_str(&mut m, ": cannot resolve block anchor for `");
                push_op_name(&mut m, op);
                push_str(&mut m, "` on line ");
                push_decimal(&mut m, anchor.line);
                push_str(
                    &mut m,
                    " \u{2014} unsupported language, blank/closer line, or parse error. Use a concrete line range.",
                );
                assert(m@ =~= unresolved_msg(line_num as nat, op, anchor.line as nat));
            }
            Err(m)
        },
        Some(b) => {
            if b.start == b.end {
                let mut m = String::new();
                push_str(&mut m, "line ");
                push_decimal(&mut m, line_num);
                push_str(&mut m, ": `");
                push_op_name(&mut m, op);
                push_str(&mut m, "` resolved a single-line block (line ");
                push_decimal(&mut m, b.start);
                push_str(&mut m, ") \u{2014} line ");
                push_decimal(&mut m, line_num);
                push_str(
                    &mut m,
                    " is a bare statement, not the opening line of a multi-line construct. Use a concrete line range instead.",
                );
                assert(m@ =~= single_line_msg(line_num as nat, op, b.start as nat));
                return Err(m);
            }
            match op {
                BlockOp::InsertAfter => Ok(
                    push_payload_inserts(
                        out,
                        payloads,
                        Cursor::AfterAnchor(Anchor { line: b.end }),
                        line_num,
                        synth,
                        None,
                        Some(b.start),
                    ),
                ),
                BlockOp::InsertBefore => Ok(
                    push_payload_inserts(
                        out,
                        payloads,
                        Cursor::BeforeAnchor(Anchor { line: b.start }),
                        line_num,
                        synth,
                        None,
                        None,
                    ),
                ),
                _ => {
                    let ghost o0 = edits_view(out@);
                    let s1 = push_payload_inserts(
                        out,
                        payloads,
                        Cursor::BeforeAnchor(Anchor { line: b.start }),
                        line_num,
                        synth,
                        Some(InsertMode::Replacement),
                        None,
                    );
                    let ghost o1 = edits_view(out@);
                    let s2 = push_range_deletes(out, b.start, b.end, line_num, s1);
                    proof {
                        let a = payload_inserts(
                            p,
                            Cursor::BeforeAnchor(Anchor { line: b.start }),
                            line_num,
                            synth as nat,
                            Some(InsertMode::Replacement),
                            None,
                        );
                        let d = range_deletes(b.start as int, b.end as int, line_num, s1 as nat);
                        assert(edits_view(out@) =~= o0 + (a + d));
                    }
                    Ok(s2)
                },
            }
        },
    }
}

/// Appends the name of `op`.
fn push_op_name(m: &mut String, op: BlockOp)
    ensures
        final(m)@ == old(m)@ + op_name(op),
{
    match op {
        BlockOp::InsertAfter => push_str(m, "insert_after"),
        BlockOp::InsertBefore => push_str(m, "insert_before"),
        BlockOp::Delete => push_str(m, "delete"),
        BlockOp::Replace => push_str(m, "replace"),
    }
}

/// Lowers every block edit of `edits` given the resolver's answers `spans`
/// (one per edit, read only for block edits); `present` says whether a
/// resolver was configured. Other edits pass through.
pub fn lower_block_edits(edits: &[Edit], spans: &[Option<BlockSpan>], present: bool) -> (r: Result<Vec<Edit>, String>)
    requires
        spans@.len() == edits@.len(),
    ensures
        lowered_as(r, lower_prefix(edits_view(edits@), spans@, present)),
{
    let ghost es = edits_view(edits@);
    let mut out: Vec<Edit> = Vec::new();
    let mut synth: usize = 0;
    let mut i: usize = 0;
    assert(edits_view(out@) =~= Seq::<EditV>::empty());
    assert(spans@.take(0) =~= Seq::<Option<BlockSpan>>::empty());
    while i < edits.len()
        invariant
            i <= edits@.len(),
            spans@.len() == edits@.len(),
            es == edits_view(edits@),
            synth <= out@.len(),
            lower_prefix(es, spans@.take(i as int), present) == Ok::<(Seq<EditV>, nat), Seq<char>>(
                (edits_view(out@), synth as nat),
            ),
        decreases edits@.len() - i,
    {
        let ghost before = edits_view(out@);
        proof {
            assert(spans@.take(i + 1).drop_last() =~= spans@.take(i as int));
            assert(es[i as int] == edits@[i as int]@);
        }
        if let Edit::Block { .. } = &edits[i] {
            match lower_one(&edits[i], spans[i], present, synth, &mut out) {
                Ok(s) => {
                    synth = s;
                },
                Err(m) => {
                    proof {
                        lemma_refusal_persists(es, spans@.take(i + 1), spans@.skip(i + 1), present);
                        assert(spans@.take(i + 1) + spans@.skip(i + 1) =~= spans@);
                    }
                    return Err(m);
                },
            }
        } else {
            out.push(edits[i].copy());
            assert(edits_view(out@) =~= before.push(es[i as int]));
        }
        i = i + 1;
    }
    assert(spans@.take(i as int) =~= spans@);
    Ok(out)
}

/// `a` is what was asked of `resolver` for edit `e` of the file at `path`
/// holding `text`: for a block edit, an answer the resolver may give for the
/// anchor's line, or nothing without a resolver; nothing for other edits.
pub open spec fn asked(resolver: Option<&dyn BlockResolver>, e: EditV, path: Seq<char>, text: Seq<char>, a: Option<BlockSpan>) -> bool {
    match e {
        EditV::Block { anchor, .. } => match resolver {
            Some(res) => res.answers(path, text, anchor.line, a),
            None => a is None,
        },
        _ => a is None,
    }
}

/// Lowers every block edit of `edits`, asking `resolver` for each block's
/// span in `text` (the file at `path`), in order, until one is refused.
/// Without a resolver, or when it finds nothing, an insert-after or
/// insert-before block edit becomes plain inserts at its anchor and the
/// others are refused.
pub fn resolve_block_edits(edits: &[Edit], text: &str, path: &str, resolver: Option<&dyn BlockResolver>) -> (r: Result<
    Vec<Edit>,
    String,
>)
    ensures
        exists|ans: Seq<Option<BlockSpan>>|
            #![trigger lower_prefix(edits_view(edits@), ans, resolver is Some)]
            ans.len() <= edits@.len() && (r is Ok ==> ans.len() == edits@.len()) && (forall|k: int|
                0 <= k < ans.len() ==> asked(resolver, edits_view(edits@)[k], path@, text@, #[trigger] ans[k]))
                && lowered_as(r, lower_prefix(edits_view(edits@), ans, resolver is Some)),
        resolver is None ==> lowered_as(
            r,
            lower_prefix(edits_view(edits@), Seq::new(edits@.len(), |k: int| None::<BlockSpan>), false),
        ),
{
    let ghost es = edits_view(edits@);
    let present = resolver.is_some();
    let ghost mut ans: Seq<Option<BlockSpan>> = Seq::empty();
    let mut out: Vec<Edit> = Vec::new();
    let mut synth: usize = 0;
    let mut i: usize = 0;
    assert(edits_view(out@) =~= Seq::<EditV>::empty());
    while i < edits.len()
        invariant
            i <= edits@.len(),
            es == edits_view(edits@),
            present == resolver is Some,
            ans.len() == i,
            synth <= out@.len(),
            forall|k: int| 0 <= k < ans.len() ==> asked(resolver, es[k], path@, text@, #[trigger] ans[k]),
            lower_prefix(es, ans, present) == Ok::<(Seq<EditV>, nat), Seq<char>>((edits_view(out@), synth as nat)),
        decreases edits@.len() - i,
    {
        let ghost before = edits_view(out@);
        proof {
            assert(es[i as int] == edits@[i as int]@);
        }
        if let Edit::Block { anchor, .. } = &edits[i] {
            let span = match resolver {
                Some(res) => {
                    let req = BlockResolverRequest { path: owned(path), text: owned(text), line: anchor.line };
                    res.resolve(&req)
                },
                None => None,
            };
            let ghost prev = ans;
            proof {
                ans = ans.push(span);
                assert(ans.drop_last() =~= prev);
                assert forall|k: int| 0 <= k < ans.len() implies asked(resolver, es[k], path@, text@, #[trigger] ans[k]) by {
                    if k < prev.len() {
                        assert(ans[k] == prev[k]);
                    }
                }
            }
            match lower_one(&edits[i], span, present, synth, &mut out) {
                Ok(s) => {
                    synth = s;
                },
                Err(m) => {
                    proof {
                        if resolver is None {
                            let rest = Seq::new((edits@.len() - i - 1) as nat, |k: int| None::<BlockSpan>);
                            lemma_refusal_persists(es, ans, rest, present);
                            assert(ans + rest =~= Seq::new(edits@.len(), |k: int| None::<BlockSpan>));
                        }
                    }
                    return Err(m);
                },
            }
        } else {
            let ghost prev = ans;
            proof {
                ans = ans.push(None);
                assert(ans.drop_last() =~= prev);
                assert forall|k: int| 0 <= k < ans.len() implies asked(resolver, es[k], path@, text@, #[trigger] ans[k]) by {
                    if k < prev.len() {
                        assert(ans[k] == prev[k]);
                    }
                }
            }
            out.push(edits[i].copy());
            assert(edits_view(out@) =~= before.push(es[i as int]));
        }
        i = i + 1;
    }
    proof {
        if resolver is None {
            assert(ans =~= Seq::new(edits@.len(), |k: int| None::<BlockSpan>));
        }
    }
    Ok(out)
}

} // verus!
