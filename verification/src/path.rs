use vstd::prelude::*;

verus! {

/// The kind of one segment of a vector path, without its points.
#[derive(Clone, Copy, PartialEq, Eq, Debug, Structural)]
pub enum SegmentKind {
    MoveTo,
    LineTo,
    QuadTo,
    CubicTo,
    Close,
}

/// One call to make on a path builder. `Begin`, `LineTo`, `QuadTo` and
/// `CubicTo` take their points from the segment they are paired with;
/// `End(close)` ends the current sub-path, closing it when `close` holds.
#[derive(Clone, Copy, PartialEq, Eq, Debug, Structural)]
pub enum PathCommand {
    Begin,
    LineTo,
    QuadTo,
    CubicTo,
    End(bool),
}

/// Whether a sub-path is open after the segments `kinds`: a move opens one,
/// a close ends it, drawing segments leave it as it was.
pub open spec fn open_after(kinds: Seq<SegmentKind>) -> bool
    decreases kinds.len(),
{
    if kinds.len() == 0 {
        false
    } else {
        match kinds.last() {
            SegmentKind::MoveTo => true,
            SegmentKind::Close => false,
            _ => open_after(kinds.drop_last()),
        }
    }
}

/// The builder calls for the segments `kinds`, each paired with the index
/// of the segment it comes from. A move first ends a sub-path that is still
/// open (without closing it), then begins a new one.
pub open spec fn commands_upto(kinds: Seq<SegmentKind>) -> Seq<(PathCommand, usize)>
    decreases kinds.len(),
{
    if kinds.len() == 0 {
        Seq::empty()
    } else {
        let prev = commands_upto(kinds.drop_last());
        let i = (kinds.len() - 1) as usize;
        match kinds.last() {
            SegmentKind::MoveTo => if open_after(kinds.drop_last()) {
                prev.push((PathCommand::End(false), i)).push((PathCommand::Begin, i))
            } else {
                prev.push((PathCommand::Begin, i))
            },
            SegmentKind::LineTo => prev.push((PathCommand::LineTo, i)),
            SegmentKind::QuadTo => prev.push((PathCommand::QuadTo, i)),
            SegmentKind::CubicTo => prev.push((PathCommand::CubicTo, i)),
            SegmentKind::Close => prev.push((PathCommand::End(true), i)),
        }
    }
}

/// The builder calls for a whole path: those of its segments, then, if a
/// sub-path is still open at the end, an `End(false)` for it.
pub open spec fn spec_path_commands(kinds: Seq<SegmentKind>) -> Seq<(PathCommand, usize)> {
    if open_after(kinds) {
        commands_upto(kinds).push((PathCommand::End(false), kinds.len() as usize))
    } else {
        commands_upto(kinds)
    }
}

/// Turn the segments of one filled path into path-builder calls: every
/// sub-path that is begun gets ended, by its own close, by the next move, or
/// at the end of the path.
pub fn path_commands(kinds: &[SegmentKind]) -> (r: Vec<(PathCommand, usize)>)
    ensures
        r@ == spec_path_commands(kinds@),
        follows_segments(kinds@, r@),
        begins_when_closed(r@),
        !builder_open(r@),
{
    let n = kinds.len();
    proof {
        lemma_commands_follow_segments(kinds@);
        lemma_subpaths_ended(kinds@);
    }
    let mut r: Vec<(PathCommand, usize)> = Vec::new();
    let mut open = false;
    let mut k: usize = 0;
    assert(kinds@.take(0) =~= Seq::<SegmentKind>::empty());
    while k < n
        invariant
            n == kinds@.len(),
            k <= n,
            r@ == commands_upto(kinds@.take(k as int)),
            open == open_after(kinds@.take(k as int)),
        decreases n - k,
    {
        assert(kinds@.take(k + 1).drop_last() =~= kinds@.take(k as int));
        assert(kinds@.take(k + 1).last() == kinds@[k as int]);
        match kinds[k] {
            SegmentKind::MoveTo => {
                if open {
                    r.push((PathCommand::End(false), k));
                }
                r.push((PathCommand::Begin, k));
                open = true;
            },
            SegmentKind::LineTo => {
                r.push((PathCommand::LineTo, k));
            },
            SegmentKind::QuadTo => {
                r.push((PathCommand::QuadTo, k));
            },
            SegmentKind::CubicTo => {
                r.push((PathCommand::CubicTo, k));
            },
            SegmentKind::Close => {
                r.push((PathCommand::End(true), k));
                open = false;
            },
        }
        k += 1;
    }
    assert(kinds@.take(n as int) =~= kinds@);
    if open {
        r.push((PathCommand::End(false), n));
    }
    r
}

/// Whether the calls `cmds` leave a sub-path open on the builder.
pub open spec fn builder_open(cmds: Seq<(PathCommand, usize)>) -> bool
    decreases cmds.len(),
{
    if cmds.len() == 0 {
        false
    } else {
        match cmds.last().0 {
            PathCommand::Begin => true,
            PathCommand::End(_) => false,
            _ => builder_open(cmds.drop_last()),
        }
    }
}

/// No sub-path is begun while another is still open.
pub open spec fn begins_when_closed(cmds: Seq<(PathCommand, usize)>) -> bool {
    forall|i: int|
        0 <= i < cmds.len() && (#[trigger] cmds[i]).0 == PathCommand::Begin ==> !builder_open(
            cmds.take(i),
        )
}

proof fn lemma_begins_when_closed_push(cmds: Seq<(PathCommand, usize)>, c: (PathCommand, usize))
    requires
        begins_when_closed(cmds),
        c.0 == PathCommand::Begin ==> !builder_open(cmds),
    ensures
        begins_when_closed(cmds.push(c)),
{
    let out = cmds.push(c);
    assert forall|i: int|
        0 <= i < out.len() && (#[trigger] out[i]).0 == PathCommand::Begin implies !builder_open(
            out.take(i),
        ) by {
        if i < cmds.len() {
            assert(out.take(i) =~= cmds.take(i));
            assert(out[i] == cmds[i]);
        } else {
            assert(out.take(i) =~= cmds);
        }
    }
}

proof fn lemma_commands_upto_balanced(kinds: Seq<SegmentKind>)
    ensures
        builder_open(commands_upto(kinds)) == open_after(kinds),
        begins_when_closed(commands_upto(kinds)),
    decreases kinds.len(),
{
    if kinds.len() > 0 {
        let prev = commands_upto(kinds.drop_last());
        let i = (kinds.len() - 1) as usize;
        lemma_commands_upto_balanced(kinds.drop_last());
        match kinds.last() {
            SegmentKind::MoveTo => {
                if open_after(kinds.drop_last()) {
                    let e = (PathCommand::End(false), i);
                    lemma_begins_when_closed_push(prev, e);
                    assert(prev.push(e).drop_last() =~= prev);
                    lemma_begins_when_closed_push(prev.push(e), (PathCommand::Begin, i));
                    assert(prev.push(e).push((PathCommand::Begin, i)).drop_last() =~= prev.push(e));
                } else {
                    lemma_begins_when_closed_push(prev, (PathCommand::Begin, i));
                }
            },
            SegmentKind::LineTo => {
                lemma_begins_when_closed_push(prev, (PathCommand::LineTo, i));
                assert(prev.push((PathCommand::LineTo, i)).drop_last() =~= prev);
            },
            SegmentKind::QuadTo => {
                lemma_begins_when_closed_push(prev, (PathCommand::QuadTo, i));
                assert(prev.push((PathCommand::QuadTo, i)).drop_last() =~= prev);
            },
            SegmentKind::CubicTo => {
                lemma_begins_when_closed_push(prev, (PathCommand::CubicTo, i));
                assert(prev.push((PathCommand::CubicTo, i)).drop_last() =~= prev);
            },
            SegmentKind::Close => {
                lemma_begins_when_closed_push(prev, (PathCommand::End(true), i));
            },
        }
    }
}

/// Every sub-path is ended exactly once: no sub-path is begun while another
/// is open, and none is left open when the path is done.
pub proof fn lemma_subpaths_ended(kinds: Seq<SegmentKind>)
    ensures
        begins_when_closed(spec_path_commands(kinds)),
        !builder_open(spec_path_commands(kinds)),
{
    lemma_commands_upto_balanced(kinds);
    if open_after(kinds) {
        lemma_begins_when_closed_push(commands_upto(kinds), (PathCommand::End(false), kinds.len() as usize));
    }
}

/// The builder call that a segment of the given kind stands for.
pub open spec fn command_for(kind: SegmentKind) -> PathCommand {
    match kind {
        SegmentKind::MoveTo => PathCommand::Begin,
        SegmentKind::LineTo => PathCommand::LineTo,
        SegmentKind::QuadTo => PathCommand::QuadTo,
        SegmentKind::CubicTo => PathCommand::CubicTo,
        SegmentKind::Close => PathCommand::End(true),
    }
}

/// The calls `out` follow the first `m` segments of `kinds` one for one:
/// each of those segments yields exactly one call of its own kind paired
/// with its own index, these come in segment order, and the only other
/// calls are `End(false)`, inserted in between or at the end.
pub open spec fn follows_first(kinds: Seq<SegmentKind>, out: Seq<(PathCommand, usize)>, m: int) -> bool {
    &&& forall|j: int| 0 <= j < out.len() ==> (#[trigger] out[j]).1 <= m
    &&& forall|j: int|
        0 <= j < out.len() && (#[trigger] out[j]).0 != PathCommand::End(false) ==> out[j].1 < m && out[j].0
            == command_for(kinds[out[j].1 as int])
    &&& forall|i: int|
        #![trigger kinds[i]]
        0 <= i < m ==> exists|j: int|
            0 <= j < out.len() && #[trigger] out[j] == (command_for(kinds[i]), i as usize)
    &&& forall|j: int, k: int|
        0 <= j < k < out.len() && (#[trigger] out[j]).0 != PathCommand::End(false) && (#[trigger] out[k]).0
            != PathCommand::End(false) ==> out[j].1 < out[k].1
    &&& forall|j: int, k: int| 0 <= j < k < out.len() ==> (#[trigger] out[j]).1 <= (#[trigger] out[k]).1
}

/// The calls `out` follow all the segments `kinds` one for one.
pub open spec fn follows_segments(kinds: Seq<SegmentKind>, out: Seq<(PathCommand, usize)>) -> bool {
    follows_first(kinds, out, kinds.len() as int)
}

proof fn lemma_follows_segment(kinds: Seq<SegmentKind>, out: Seq<(PathCommand, usize)>, m: int)
    requires
        follows_first(kinds, out, m),
        0 <= m < kinds.len(),
        m <= usize::MAX,
    ensures
        follows_first(kinds, out.push((command_for(kinds[m]), m as usize)), m + 1),
{
    let c = (command_for(kinds[m]), m as usize);
    let o = out.push(c);
    assert(o[out.len() as int] == c);
    assert forall|i: int|
        #![trigger kinds[i]]
        0 <= i < m + 1 implies exists|j: int|
            0 <= j < o.len() && #[trigger] o[j] == (command_for(kinds[i]), i as usize) by {
        if i < m {
            let j = choose|j: int| 0 <= j < out.len() && #[trigger] out[j] == (command_for(kinds[i]), i as usize);
            assert(o[j] == out[j]);
        } else {
            assert(o[out.len() as int] == (command_for(kinds[i]), i as usize));
        }
    }
    assert forall|j: int, k: int|
        0 <= j < k < o.len() && (#[trigger] o[j]).0 != PathCommand::End(false) && (#[trigger] o[k]).0
            != PathCommand::End(false) implies o[j].1 < o[k].1 by {
        if k == out.len() {
            assert(o[j] == out[j]);
        } else {
            assert(o[j] == out[j] && o[k] == out[k]);
        }
    }
    assert forall|j: int, k: int| 0 <= j < k < o.len() implies (#[trigger] o[j]).1 <= (#[trigger] o[k]).1 by {
        if k == out.len() {
            assert(o[j] == out[j]);
        } else {
            assert(o[j] == out[j] && o[k] == out[k]);
        }
    }
}

proof fn lemma_follows_end(kinds: Seq<SegmentKind>, out: Seq<(PathCommand, usize)>, m: int)
    requires
        follows_first(kinds, out, m),
        0 <= m <= usize::MAX,
    ensures
        follows_first(kinds, out.push((PathCommand::End(false), m as usize)), m),
{
    let c = (PathCommand::End(false), m as usize);
    let o = out.push(c);
    assert(o[out.len() as int] == c);
    assert forall|i: int|
        #![trigger kinds[i]]
        0 <= i < m implies exists|j: int|
            0 <= j < o.len() && #[trigger] o[j] == (command_for(kinds[i]), i as usize) by {
        let j = choose|j: int| 0 <= j < out.len() && #[trigger] out[j] == (command_for(kinds[i]), i as usize);
        assert(o[j] == out[j]);
    }
    assert forall|j: int, k: int|
        0 <= j < k < o.len() && (#[trigger] o[j]).0 != PathCommand::End(false) && (#[trigger] o[k]).0
            != PathCommand::End(false) implies o[j].1 < o[k].1 by {
        assert(o[j] == out[j] && o[k] == out[k]);
    }
    assert forall|j: int, k: int| 0 <= j < k < o.len() implies (#[trigger] o[j]).1 <= (#[trigger] o[k]).1 by {
        if k == out.len() {
            assert(o[j] == out[j]);
        } else {
            assert(o[j] == out[j] && o[k] == out[k]);
        }
    }
}

proof fn lemma_follows_longer(pk: Seq<SegmentKind>, kinds: Seq<SegmentKind>, out: Seq<(PathCommand, usize)>, m: int)
    requires
        follows_first(pk, out, m),
        0 <= m <= pk.len() <= kinds.len(),
        forall|i: int| 0 <= i < pk.len() ==> pk[i] == kinds[i],
    ensures
        follows_first(kinds, out, m),
{
    assert forall|j: int|
        0 <= j < out.len() && (#[trigger] out[j]).0 != PathCommand::End(false) implies out[j].1 < m && out[j].0
            == command_for(kinds[out[j].1 as int]) by {
        assert(pk[out[j].1 as int] == kinds[out[j].1 as int]);
    }
    assert forall|i: int|
        #![trigger kinds[i]]
        0 <= i < m implies exists|j: int|
            0 <= j < out.len() && #[trigger] out[j] == (command_for(kinds[i]), i as usize) by {
        assert(pk[i] == kinds[i]);
        let j = choose|j: int| 0 <= j < out.len() && #[trigger] out[j] == (command_for(pk[i]), i as usize);
        assert(out[j] == (command_for(kinds[i]), i as usize));
    }
}

proof fn lemma_commands_upto_follow(kinds: Seq<SegmentKind>)
    requires
        kinds.len() <= usize::MAX,
    ensures
        follows_segments(kinds, commands_upto(kinds)),
    decreases kinds.len(),
{
    if kinds.len() > 0 {
        let pk = kinds.drop_last();
        let prev = commands_upto(pk);
        let m = pk.len() as int;
        lemma_commands_upto_follow(pk);
        lemma_follows_longer(pk, kinds, prev, m);
        let c = (command_for(kinds[m]), m as usize);
        if kinds.last() == SegmentKind::MoveTo && open_after(pk) {
            lemma_follows_end(kinds, prev, m);
            let p2 = prev.push((PathCommand::End(false), m as usize));
            lemma_follows_segment(kinds, p2, m);
            assert(commands_upto(kinds) == p2.push(c));
        } else {
            lemma_follows_segment(kinds, prev, m);
            assert(commands_upto(kinds) == prev.push(c));
        }
    }
}

/// The builder calls follow the path's segments one for one: each segment
/// gives exactly one call of its own kind, with its own index, in segment
/// order, so no line or curve is dropped, repeated or reordered; the only
/// extra calls are the `End(false)` that end sub-paths left open.
pub proof fn lemma_commands_follow_segments(kinds: Seq<SegmentKind>)
    requires
        kinds.len() <= usize::MAX,
    ensures
        follows_segments(kinds, spec_path_commands(kinds)),
{
    lemma_commands_upto_follow(kinds);
    if open_after(kinds) {
        lemma_follows_end(kinds, commands_upto(kinds), kinds.len() as int);
    }
}

} // verus!
