//! Replaying logged writes over a tree, and what that restores.
use crate::path;
use crate::shape;
use crate::shape::Shape;
use crate::value;
use crate::value::Json;
use vstd::prelude::*;

verus! {

/// The kind of a logged write.
#[derive(Clone, Copy, PartialEq, Eq, Structural)]
pub enum WalOp {
    Assign,
    Update,
    Delete,
}

/// A logged write.
pub ghost struct Entry {
    pub op: WalOp,
    pub path: Seq<Seq<char>>,
    pub value: Option<Json>,
}

/// One step of a write: what is to stand at a path, null for nothing.
pub ghost struct Edit {
    pub path: Seq<Seq<char>>,
    pub leaf: Shape,
}

/// `n` with `leaf` at path `p`; writing null removes.
pub open spec fn write(n: Shape, p: Seq<Seq<char>>, leaf: Shape, lazy: bool) -> Shape {
    if leaf is Null {
        shape::cut(n, p)
    } else {
        shape::put(n, p, leaf, lazy)
    }
}

/// `n` after a sequence of steps.
pub open spec fn write_all(n: Shape, edits: Seq<Edit>, lazy: bool) -> Shape
    decreases edits.len(),
{
    if edits.len() == 0 {
        n
    } else {
        let e = edits.last();
        write(write_all(n, edits.drop_last(), lazy), e.path, e.leaf, lazy)
    }
}

/// The steps of a merge at path `base`: each key is a path below it.
pub open spec fn merge_edits(base: Seq<Seq<char>>, members: Seq<(Seq<char>, Json)>) -> Seq<Edit> {
    Seq::new(
        members.len(),
        |i: int|
            Edit {
                path: base + path::segments(members[i].0),
                leaf: value::cleaned(members[i].1),
            },
    )
}

/// The steps of a logged write. A set without a value, or to null, removes.
pub open spec fn entry_edits(e: Entry) -> Seq<Edit> {
    match e.op {
        WalOp::Assign => match e.value {
            Some(v) => seq![Edit { path: e.path, leaf: value::cleaned(v) }],
            None => seq![Edit { path: e.path, leaf: Shape::Null }],
        },
        WalOp::Update => match e.value {
            Some(Json::Object(members)) => merge_edits(e.path, members),
            _ => Seq::empty(),
        },
        WalOp::Delete => seq![Edit { path: e.path, leaf: Shape::Null }],
    }
}

/// `n` after a log of writes.
pub open spec fn replay(n: Shape, entries: Seq<Entry>, lazy: bool) -> Shape
    decreases entries.len(),
{
    if entries.len() == 0 {
        n
    } else {
        write_all(replay(n, entries.drop_last(), lazy), entry_edits(entries.last()), lazy)
    }
}

/// Whether a logged write can matter for the subtree at `p`.
pub open spec fn affects(e: Entry, p: Seq<Seq<char>>) -> bool {
    path::related(e.path, p)
}

/// The logged writes that can matter for the subtree at `p`, in order.
pub open spec fn affecting(entries: Seq<Entry>, p: Seq<Seq<char>>) -> Seq<Entry>
    decreases entries.len(),
{
    if entries.len() == 0 {
        Seq::empty()
    } else if affects(entries.last(), p) {
        affecting(entries.drop_last(), p).push(entries.last())
    } else {
        affecting(entries.drop_last(), p)
    }
}

/// The data that a stored blob and the log on top of it stand for.
pub open spec fn full_data(blob: Shape, entries: Seq<Entry>) -> Shape {
    replay(blob, entries, false)
}

/// What promoting the subtree at `p` in full installs there.
pub open spec fn deep_promoted(
    stored: Shape,
    entries: Seq<Entry>,
    p: Seq<Seq<char>>,
) -> Shape {
    shape::at_or_null(
        replay(shape::put(Shape::Null, p, stored, false), affecting(entries, p), false),
        p,
    )
}

/// What promoting one level at `p` installs there.
pub open spec fn shallow_promoted(
    listed: Shape,
    entries: Seq<Entry>,
    p: Seq<Seq<char>>,
) -> Shape {
    shape::at_or_null(
        replay(shape::put(Shape::Null, p, listed, false), affecting(entries, p), true),
        p,
    )
}

/// What a one-level read of a stored node shows: leaves as they are, containers as
/// sentinels.
pub open spec fn one_level(n: Shape) -> Shape {
    match n {
        Shape::Object(m) => Shape::Object(
            m.map_values(
                |c: Shape|
                    match c {
                        Shape::Object(_) => Shape::Sentinel(Map::empty()),
                        leaf => leaf,
                    },
            ),
        ),
        leaf => leaf,
    }
}

/// A path that extends one that leads elsewhere leads elsewhere.
pub proof fn lemma_unrelated_below(e: Seq<Seq<char>>, k: Seq<Seq<char>>, p: Seq<Seq<char>>)
    requires
        !path::related(e, p),
    ensures
        !path::related(e + k, p),
{
    let q = e + k;
    if path::is_prefix(q, p) {
        assert(p.take(e.len() as int) =~= p.take(q.len() as int).take(e.len() as int));
        assert(q.take(e.len() as int) =~= e);
        assert(path::is_prefix(e, p));
    }
    if path::is_prefix(p, q) {
        if p.len() <= e.len() {
            assert(e.take(p.len() as int) =~= q.take(p.len() as int));
        } else {
            assert(q.take(p.len() as int).take(e.len() as int) =~= q.take(e.len() as int));
            assert(q.take(e.len() as int) =~= e);
            assert(path::is_prefix(e, p));
        }
    }
}

/// One step does the same to two trees that are the same at `p`; a step elsewhere
/// does nothing there.
pub proof fn lemma_write_same_at(
    t: Shape,
    u: Shape,
    q: Seq<Seq<char>>,
    leaf: Shape,
    p: Seq<Seq<char>>,
)
    requires
        shape::at_or_null(t, p) == shape::at_or_null(u, p),
    ensures
        shape::at_or_null(write(t, q, leaf, false), p) == shape::at_or_null(
            write(u, q, leaf, false),
            p,
        ),
        !path::related(q, p) ==> shape::at_or_null(write(u, q, leaf, false), p)
            == shape::at_or_null(u, p),
{
    if leaf is Null {
        shape::lemma_at_cut(t, q, p);
        shape::lemma_at_cut(u, q, p);
        if path::is_prefix(p, q) && p.len() == q.len() {
            assert(q.take(p.len() as int) =~= q);
            assert(p.take(q.len() as int) =~= p);
            assert(path::is_prefix(q, p));
        }
        if path::is_prefix(p, q) && p.len() < q.len() {
            let rest = q.skip(p.len() as int);
            assert(shape::kids(Shape::Null) =~= Map::empty());
            assert(shape::cut(Shape::Null, rest) == Shape::Null);
        }
    } else {
        shape::lemma_at_put(t, q, leaf, false, p);
        shape::lemma_at_put(u, q, leaf, false, p);
    }
}

/// Steps do the same to two trees that are the same at `p`.
pub proof fn lemma_write_all_same_at(t: Shape, u: Shape, edits: Seq<Edit>, p: Seq<Seq<char>>)
    requires
        shape::at_or_null(t, p) == shape::at_or_null(u, p),
    ensures
        shape::at_or_null(write_all(t, edits, false), p) == shape::at_or_null(
            write_all(u, edits, false),
            p,
        ),
        (forall|i: int| 0 <= i < edits.len() ==> !path::related((#[trigger] edits[i]).path, p))
            ==> shape::at_or_null(write_all(u, edits, false), p) == shape::at_or_null(u, p),
    decreases edits.len(),
{
    if edits.len() > 0 {
        let e = edits.last();
        let before = edits.drop_last();
        lemma_write_all_same_at(t, u, before, p);
        lemma_write_same_at(
            write_all(t, before, false),
            write_all(u, before, false),
            e.path,
            e.leaf,
            p,
        );
        if forall|i: int| 0 <= i < edits.len() ==> !path::related((#[trigger] edits[i]).path, p) {
            assert(forall|i: int| 0 <= i < before.len() ==> before[i] == edits[i]);
            assert(!path::related(edits[edits.len() - 1].path, p));
        }
    }
}

/// No step of a write that leads elsewhere touches `p`.
pub proof fn lemma_entry_elsewhere(e: Entry, p: Seq<Seq<char>>)
    requires
        !affects(e, p),
    ensures
        forall|i: int|
            0 <= i < entry_edits(e).len() ==> !path::related((#[trigger] entry_edits(e)[i]).path, p),
{
    assert forall|i: int| 0 <= i < entry_edits(e).len() implies !path::related(
        (#[trigger] entry_edits(e)[i]).path,
        p,
    ) by {
        if e.op is Update {
            let members = e.value->0->Object_0;
            lemma_unrelated_below(e.path, path::segments(members[i].0), p);
        }
    }
}

/// Replaying only the writes that can matter for `p` gives the same at `p` as
/// replaying all of them.
pub proof fn lemma_replay_same_at(t: Shape, u: Shape, entries: Seq<Entry>, p: Seq<Seq<char>>)
    requires
        shape::at_or_null(t, p) == shape::at_or_null(u, p),
    ensures
        shape::at_or_null(replay(t, affecting(entries, p), false), p) == shape::at_or_null(
            replay(u, entries, false),
            p,
        ),
    decreases entries.len(),
{
    if entries.len() > 0 {
        let e = entries.last();
        let before = entries.drop_last();
        lemma_replay_same_at(t, u, before, p);
        let t2 = replay(t, affecting(before, p), false);
        let u2 = replay(u, before, false);
        lemma_write_all_same_at(t2, u2, entry_edits(e), p);
        if affects(e, p) {
            assert(affecting(entries, p).drop_last() =~= affecting(before, p));
        } else {
            lemma_entry_elsewhere(e, p);
        }
    }
}

/// Promoting a subtree restores exactly the data it stands for: reading the blob's
/// subtree and replaying only the log entries whose paths touch it gives what
/// replaying the whole log over the whole blob gives there.
pub proof fn law_promotion_exact(blob: Shape, entries: Seq<Entry>, p: Seq<Seq<char>>)
    ensures
        deep_promoted(shape::at_or_null(blob, p), entries, p) == shape::at_or_null(
            full_data(blob, entries),
            p,
        ),
{
    let stored = shape::at_or_null(blob, p);
    let temp = shape::put(Shape::Null, p, stored, false);
    shape::lemma_at_put(Shape::Null, p, stored, false, p);
    assert(p.take(p.len() as int) =~= p);
    assert(p.skip(p.len() as int) =~= Seq::<Seq<char>>::empty());
    lemma_replay_same_at(temp, blob, entries, p);
}

/// A write of loaded data leaves loaded data loaded.
pub proof fn lemma_write_loaded(n: Shape, q: Seq<Seq<char>>, leaf: Shape)
    requires
        shape::fully_loaded(n),
        shape::fully_loaded(leaf),
    ensures
        shape::fully_loaded(write(n, q, leaf, false)),
{
    let n2 = write(n, q, leaf, false);
    assert forall|p: Seq<Seq<char>>| (#[trigger] shape::at(n2, p)) is Some implies !(shape::at(
        n2,
        p,
    )->0 is Sentinel) by {
        assert(shape::at(n, p) is Some ==> !(shape::at(n, p)->0 is Sentinel));
        if leaf is Null {
            shape::lemma_at_cut(n, q, p);
            if path::is_prefix(p, q) && p.len() == q.len() {
                assert(q.take(p.len() as int) =~= q);
                assert(p.take(q.len() as int) =~= p);
                assert(path::is_prefix(q, p));
            }
            if q.len() == 0 {
                assert(shape::at_or_null(n2, p) is Null);
            }
        } else {
            shape::lemma_at_put(n, q, leaf, false, p);
            if path::is_prefix(q, p) {
                let s = p.skip(q.len() as int);
                assert(shape::at(leaf, s) is Some ==> !(shape::at(leaf, s)->0 is Sentinel));
            } else if path::is_prefix(p, q) {
                let rest = q.skip(p.len() as int);
                assert(p.len() < q.len()) by {
                    if p.len() == q.len() {
                        assert(q.take(p.len() as int) =~= q);
                        assert(p.take(q.len() as int) =~= p);
                    }
                }
                shape::lemma_put_kind(shape::at_or_null(n, p), rest, leaf, false);
            }
        }
    }
}

/// Whether every step of a list writes loaded data.
pub open spec fn loaded_edits(edits: Seq<Edit>) -> bool {
    forall|i: int| 0 <= i < edits.len() ==> shape::fully_loaded((#[trigger] edits[i]).leaf)
}

/// The steps of a logged write write loaded data.
pub proof fn lemma_entry_loaded(e: Entry)
    ensures
        loaded_edits(entry_edits(e)),
{
    assert forall|i: int| 0 <= i < entry_edits(e).len() implies shape::fully_loaded(
        (#[trigger] entry_edits(e)[i]).leaf,
    ) by {
        match e.op {
            WalOp::Update => {
                let members = e.value->0->Object_0;
                value::lemma_cleaned_loaded(members[i].1);
            },
            WalOp::Assign => {
                match e.value {
                    Some(v) => {
                        value::lemma_cleaned_loaded(v);
                    },
                    None => {
                        value::lemma_cleaned_loaded(Json::Null);
                    },
                }
            },
            WalOp::Delete => {
                value::lemma_cleaned_loaded(Json::Null);
            },
        }
    }
}

/// Steps of loaded data leave loaded data loaded.
pub proof fn lemma_write_all_loaded(n: Shape, edits: Seq<Edit>)
    requires
        shape::fully_loaded(n),
        loaded_edits(edits),
    ensures
        shape::fully_loaded(write_all(n, edits, false)),
    decreases edits.len(),
{
    if edits.len() > 0 {
        assert(forall|i: int| 0 <= i < edits.drop_last().len() ==> edits.drop_last()[i] == edits[i]);
        lemma_write_all_loaded(n, edits.drop_last());
        lemma_write_loaded(
            write_all(n, edits.drop_last(), false),
            edits.last().path,
            edits.last().leaf,
        );
    }
}

/// A log over loaded data gives loaded data.
pub proof fn lemma_replay_loaded(n: Shape, entries: Seq<Entry>)
    requires
        shape::fully_loaded(n),
    ensures
        shape::fully_loaded(replay(n, entries, false)),
    decreases entries.len(),
{
    if entries.len() > 0 {
        lemma_replay_loaded(n, entries.drop_last());
        lemma_entry_loaded(entries.last());
        lemma_write_all_loaded(
            replay(n, entries.drop_last(), false),
            entry_edits(entries.last()),
        );
    }
}

/// A step into a partially loaded tree agrees with the step into the full data.
pub proof fn law_step_agrees(t: Shape, full: Shape, q: Seq<Seq<char>>, leaf: Shape)
    requires
        shape::agrees(t, full),
        shape::fully_loaded(full),
        shape::fully_loaded(leaf),
    ensures
        shape::agrees(write(t, q, leaf, true), write(full, q, leaf, false)),
{
    if leaf is Null {
        shape::law_remove_agrees(t, full, q);
    } else {
        shape::law_write_agrees(t, full, q, leaf);
    }
}

/// A logged write into a partially loaded tree agrees with the write into the full data.
pub proof fn law_write_all_agrees(t: Shape, full: Shape, edits: Seq<Edit>)
    requires
        shape::agrees(t, full),
        shape::fully_loaded(full),
        loaded_edits(edits),
    ensures
        shape::agrees(write_all(t, edits, true), write_all(full, edits, false)),
        shape::fully_loaded(write_all(full, edits, false)),
    decreases edits.len(),
{
    if edits.len() > 0 {
        let before = edits.drop_last();
        assert(forall|i: int| 0 <= i < before.len() ==> before[i] == edits[i]);
        law_write_all_agrees(t, full, before);
        law_step_agrees(
            write_all(t, before, true),
            write_all(full, before, false),
            edits.last().path,
            edits.last().leaf,
        );
        lemma_write_loaded(
            write_all(full, before, false),
            edits.last().path,
            edits.last().leaf,
        );
    }
}

/// One lazy step at `p`: if the tree's node at `p` agrees with the full data's, it
/// still does after the step; a step elsewhere can be left out.
pub proof fn lemma_step_agrees_at(
    t: Shape,
    full: Shape,
    q: Seq<Seq<char>>,
    leaf: Shape,
    p: Seq<Seq<char>>,
)
    requires
        shape::agrees(shape::at_or_null(t, p), shape::at_or_null(full, p)),
        shape::fully_loaded(full),
        shape::fully_loaded(leaf),
    ensures
        shape::agrees(
            shape::at_or_null(write(t, q, leaf, true), p),
            shape::at_or_null(write(full, q, leaf, false), p),
        ),
        !path::related(q, p) ==> shape::at_or_null(write(full, q, leaf, false), p)
            == shape::at_or_null(full, p),
{
    let tp = shape::at_or_null(t, p);
    let fp = shape::at_or_null(full, p);
    lemma_at_loaded(full, p);
    if leaf is Null {
        shape::lemma_at_cut(t, q, p);
        shape::lemma_at_cut(full, q, p);
        if path::is_prefix(p, q) && p.len() == q.len() {
            assert(q.take(p.len() as int) =~= q);
            assert(p.take(q.len() as int) =~= p);
            assert(path::is_prefix(q, p));
        }
        if path::is_prefix(q, p) {
            shape::lemma_agrees_self(Shape::Null);
        } else if path::is_prefix(p, q) {
            let rest = q.skip(p.len() as int);
            assert(shape::kids(Shape::Null) =~= Map::empty());
            assert(shape::cut(Shape::Null, rest) == Shape::Null);
            shape::law_remove_agrees(tp, fp, rest);
        }
    } else {
        shape::lemma_at_put(t, q, leaf, true, p);
        shape::lemma_at_put(full, q, leaf, false, p);
        if path::is_prefix(q, p) {
            shape::lemma_agrees_self(shape::at_or_null(leaf, p.skip(q.len() as int)));
        } else if path::is_prefix(p, q) {
            shape::law_write_agrees(tp, fp, q.skip(p.len() as int), leaf);
        }
    }
}

/// A part of loaded data is loaded.
pub proof fn lemma_at_loaded(n: Shape, p: Seq<Seq<char>>)
    requires
        shape::fully_loaded(n),
    ensures
        shape::fully_loaded(shape::at_or_null(n, p)),
{
    let sub = shape::at_or_null(n, p);
    assert forall|s: Seq<Seq<char>>| (#[trigger] shape::at(sub, s)) is Some implies !(shape::at(
        sub,
        s,
    )->0 is Sentinel) by {
        shape::lemma_at_split(n, p, s);
        assert(shape::at(n, p + s) is Some ==> !(shape::at(n, p + s)->0 is Sentinel));
    }
}

/// Steps at `p` keep the agreement there.
pub proof fn lemma_steps_agree_at(
    t: Shape,
    full: Shape,
    edits: Seq<Edit>,
    p: Seq<Seq<char>>,
)
    requires
        shape::agrees(shape::at_or_null(t, p), shape::at_or_null(full, p)),
        shape::fully_loaded(full),
        loaded_edits(edits),
    ensures
        shape::agrees(
            shape::at_or_null(write_all(t, edits, true), p),
            shape::at_or_null(write_all(full, edits, false), p),
        ),
        shape::fully_loaded(write_all(full, edits, false)),
    decreases edits.len(),
{
    if edits.len() > 0 {
        let before = edits.drop_last();
        assert(forall|i: int| 0 <= i < before.len() ==> before[i] == edits[i]);
        lemma_steps_agree_at(t, full, before, p);
        lemma_step_agrees_at(
            write_all(t, before, true),
            write_all(full, before, false),
            edits.last().path,
            edits.last().leaf,
            p,
        );
        lemma_write_loaded(
            write_all(full, before, false),
            edits.last().path,
            edits.last().leaf,
        );
    }
}

/// A lazy replay of the writes that can matter for `p` agrees there with the full replay.
pub proof fn lemma_replay_agrees_at(
    t: Shape,
    full: Shape,
    entries: Seq<Entry>,
    p: Seq<Seq<char>>,
)
    requires
        shape::agrees(shape::at_or_null(t, p), shape::at_or_null(full, p)),
        shape::fully_loaded(full),
    ensures
        shape::agrees(
            shape::at_or_null(replay(t, affecting(entries, p), true), p),
            shape::at_or_null(replay(full, entries, false), p),
        ),
        shape::fully_loaded(replay(full, entries, false)),
    decreases entries.len(),
{
    if entries.len() > 0 {
        let e = entries.last();
        let before = entries.drop_last();
        lemma_replay_agrees_at(t, full, before, p);
        let t2 = replay(t, affecting(before, p), true);
        let f2 = replay(full, before, false);
        lemma_entry_loaded(e);
        lemma_steps_agree_at(t2, f2, entry_edits(e), p);
        if affects(e, p) {
            assert(affecting(entries, p).drop_last() =~= affecting(before, p));
        } else {
            lemma_entry_elsewhere(e, p);
            lemma_write_all_same_at(f2, f2, entry_edits(e), p);
        }
    }
}

/// A one-level read agrees with the node it was read from.
pub proof fn lemma_one_level_agrees(n: Shape)
    requires
        shape::fully_loaded(n),
    ensures
        shape::agrees(one_level(n), n),
{
    let t = one_level(n);
    assert(!(n is Sentinel)) by {
        assert(shape::at(n, Seq::empty()) == Some(n));
    }
    assert forall|p: Seq<Seq<char>>| #[trigger] shape::agrees_at(t, n, p) by {
        if p.len() == 0 {
            assert forall|k: Seq<char>| !shape::kids(t).contains_key(k) implies shape::absent(
                n,
                #[trigger] p.push(k),
            ) by {
                shape::lemma_at_push(n, p, k);
            }
        } else if shape::kids(t).contains_key(p[0]) {
            let c = shape::kids(n)[p[0]];
            let tc = shape::kids(t)[p[0]];
            let rest = p.drop_first();
            if !(c is Object) {
                assert(tc == c);
                assert(p =~= seq![p[0]] + rest);
                shape::lemma_at_split(n, seq![p[0]], rest);
                assert(shape::at(n, p) == shape::at(c, rest));
                assert(!(c is Sentinel)) by {
                    assert(seq![p[0]].drop_first() =~= Seq::<Seq<char>>::empty());
                    reveal_with_fuel(shape::at, 2);
                    assert(shape::at(n, seq![p[0]]) == Some(c));
                }
                assert(shape::kids(c) =~= Map::empty());
            } else {
                assert(tc == Shape::Sentinel(Map::empty()));
                if rest.len() > 0 {
                    assert(shape::at(tc, rest) is None);
                }
            }
        }
    }
}

/// Promoting one level tells nothing false: what stands at `p` afterwards agrees with
/// the data the blob and the log stand for.
pub proof fn law_shallow_promotion_true(blob: Shape, entries: Seq<Entry>, p: Seq<Seq<char>>)
    requires
        shape::fully_loaded(blob),
    ensures
        shape::agrees(
            shallow_promoted(one_level(shape::at_or_null(blob, p)), entries, p),
            shape::at_or_null(full_data(blob, entries), p),
        ),
{
    let stored = shape::at_or_null(blob, p);
    let listed = one_level(stored);
    lemma_at_loaded(blob, p);
    lemma_one_level_agrees(stored);
    let temp = shape::put(Shape::Null, p, listed, false);
    shape::lemma_at_put(Shape::Null, p, listed, false, p);
    assert(p.take(p.len() as int) =~= p);
    assert(p.skip(p.len() as int) =~= Seq::<Seq<char>>::empty());
    lemma_replay_agrees_at(temp, blob, entries, p);
}

/// Whether a write has nothing to do with a path: nothing is written at it, above it or below
/// it.
pub open spec fn spares(e: Entry, q: Seq<Seq<char>>) -> bool {
    match e.op {
        WalOp::Update => match e.value {
            Some(Json::Object(members)) => forall|i: int|
                0 <= i < members.len() ==> !path::related(
                    e.path + path::segments((#[trigger] members[i]).0),
                    q,
                ),
            _ => true,
        },
        _ => !path::related(e.path, q),
    }
}

/// Steps at other places leave a path as it was.
proof fn lemma_steps_elsewhere(t: Shape, edits: Seq<Edit>, lazy: bool, q: Seq<Seq<char>>)
    requires
        forall|i: int| 0 <= i < edits.len() ==> !path::related((#[trigger] edits[i]).path, q),
    ensures
        shape::at(write_all(t, edits, lazy), q) == shape::at(t, q),
    decreases edits.len(),
{
    if edits.len() > 0 {
        let front = edits.drop_last();
        let e = edits.last();
        assert forall|i: int| 0 <= i < front.len() implies !path::related(
            (#[trigger] front[i]).path,
            q,
        ) by {
            assert(front[i] == edits[i]);
        }
        lemma_steps_elsewhere(t, front, lazy, q);
        assert(edits[edits.len() - 1] == e);
        let before = write_all(t, front, lazy);
        shape::lemma_at_put(before, e.path, e.leaf, lazy, q);
        shape::lemma_at_cut(before, e.path, q);
    }
}

/// A step that no later one touches is what stands at its path.
proof fn lemma_step_stands(t: Shape, edits: Seq<Edit>, lazy: bool, i: int)
    requires
        0 <= i < edits.len(),
        forall|j: int|
            i < j < edits.len() ==> !path::related((#[trigger] edits[j]).path, edits[i].path),
    ensures
        edits[i].leaf is Null ==> shape::at_or_null(
            write_all(t, edits, lazy),
            edits[i].path,
        ) is Null,
        !(edits[i].leaf is Null) ==> shape::at(write_all(t, edits, lazy), edits[i].path) == Some(
            edits[i].leaf,
        ),
    decreases edits.len(),
{
    let front = edits.drop_last();
    let e = edits.last();
    let p = edits[i].path;
    let before = write_all(t, front, lazy);
    assert(p.take(p.len() as int) =~= p);
    if i == edits.len() - 1 {
        shape::lemma_at_put(before, p, e.leaf, lazy, p);
        shape::lemma_at_cut(before, p, p);
        assert(p.skip(p.len() as int) =~= Seq::<Seq<char>>::empty());
    } else {
        assert(front[i] == edits[i]);
        assert forall|j: int| i < j < front.len() implies !path::related(
            (#[trigger] front[j]).path,
            front[i].path,
        ) by {
            assert(front[j] == edits[j]);
        }
        lemma_step_stands(t, front, lazy, i);
        assert(!path::related(edits[edits.len() - 1].path, p));
        shape::lemma_at_put(before, e.path, e.leaf, lazy, p);
        shape::lemma_at_cut(before, e.path, p);
    }
}

/// A write leaves everything alone that it has nothing to do with.
pub proof fn law_write_spares_the_rest(t: Shape, e: Entry, lazy: bool, q: Seq<Seq<char>>)
    requires
        spares(e, q),
    ensures
        shape::at(write_all(t, entry_edits(e), lazy), q) == shape::at(t, q),
{
    let edits = entry_edits(e);
    assert forall|i: int| 0 <= i < edits.len() implies !path::related(
        (#[trigger] edits[i]).path,
        q,
    ) by {
        if e.op is Update {
            let members = e.value->0->Object_0;
            assert(edits[i].path == e.path + path::segments(members[i].0));
        }
    }
    lemma_steps_elsewhere(t, edits, lazy, q);
}

/// What is set at a path stands there, and null, or a removal, leaves nothing.
pub proof fn law_set_stands(t: Shape, e: Entry, lazy: bool)
    requires
        e.op is Assign || e.op is Delete,
    ensures
        ({
            let after = write_all(t, entry_edits(e), lazy);
            if e.op is Delete || e.value is None || e.value->0 is Null {
                shape::at_or_null(after, e.path) is Null
            } else {
                shape::at(after, e.path) == Some(value::cleaned(e.value->0))
            }
        }),
{
    let edits = entry_edits(e);
    assert(edits.len() == 1 && edits[0].path == e.path);
    lemma_step_stands(t, edits, lazy, 0);
}

/// What is merged under a key stands at the path of that key, and null leaves nothing there,
/// where no later key of the merge reaches.
pub proof fn law_merge_stands(t: Shape, e: Entry, lazy: bool, i: int)
    requires
        e.op is Update,
        e.value matches Some(Json::Object(members)) && 0 <= i < members.len() && forall|j: int|
            i < j < members.len() ==> !path::related(
                e.path + path::segments((#[trigger] members[j]).0),
                e.path + path::segments(members[i].0),
            ),
    ensures
        ({
            let after = write_all(t, entry_edits(e), lazy);
            let (k, v) = e.value->0->Object_0[i];
            let q = e.path + path::segments(k);
            if v is Null {
                shape::at_or_null(after, q) is Null
            } else {
                shape::at(after, q) == Some(value::cleaned(v))
            }
        }),
{
    let edits = entry_edits(e);
    let members = e.value->0->Object_0;
    assert forall|j: int| i < j < edits.len() implies !path::related(
        (#[trigger] edits[j]).path,
        edits[i].path,
    ) by {
        assert(edits[j].path == e.path + path::segments(members[j].0));
        assert(edits[i].path == e.path + path::segments(members[i].0));
    }
    lemma_step_stands(t, edits, lazy, i);
}

/// A merge of something that is no object, which no request leads to, changes nothing.
pub proof fn law_merge_of_no_object_is_nothing(t: Shape, e: Entry, lazy: bool)
    requires
        e.op is Update,
        !(e.value is Some && e.value->0 is Object),
    ensures
        write_all(t, entry_edits(e), lazy) == t,
{
}

/// A log of writes leaves everything alone that none of them has to do with.
pub proof fn law_log_spares_the_rest(
    t: Shape,
    entries: Seq<Entry>,
    lazy: bool,
    q: Seq<Seq<char>>,
)
    requires
        forall|i: int| 0 <= i < entries.len() ==> spares(#[trigger] entries[i], q),
    ensures
        shape::at(replay(t, entries, lazy), q) == shape::at(t, q),
    decreases entries.len(),
{
    if entries.len() > 0 {
        let front = entries.drop_last();
        assert forall|i: int| 0 <= i < front.len() implies spares(#[trigger] front[i], q) by {
            assert(front[i] == entries[i]);
        }
        law_log_spares_the_rest(t, front, lazy, q);
        assert(spares(entries[entries.len() - 1], q));
        law_write_spares_the_rest(replay(t, front, lazy), entries.last(), lazy, q);
    }
}

/// Whatever came before, a path holds what the last write to it in a log says: what it was
/// set to, or nothing.
pub proof fn law_last_write_in_a_log_counts(
    t: Shape,
    entries: Seq<Entry>,
    lazy: bool,
    i: int,
)
    requires
        0 <= i < entries.len(),
        entries[i].op is Assign || entries[i].op is Delete,
        forall|j: int| i < j < entries.len() ==> spares(#[trigger] entries[j], entries[i].path),
    ensures
        ({
            let e = entries[i];
            let after = replay(t, entries, lazy);
            if e.op is Delete || e.value is None || e.value->0 is Null {
                shape::at_or_null(after, e.path) is Null
            } else {
                shape::at(after, e.path) == Some(value::cleaned(e.value->0))
            }
        }),
    decreases entries.len(),
{
    let front = entries.drop_last();
    if i == entries.len() - 1 {
        law_set_stands(replay(t, front, lazy), entries[i], lazy);
    } else {
        assert(front[i] == entries[i]);
        assert forall|j: int| i < j < front.len() implies spares(
            #[trigger] front[j],
            front[i].path,
        ) by {
            assert(front[j] == entries[j]);
        }
        law_last_write_in_a_log_counts(t, front, lazy, i);
        assert(spares(entries[entries.len() - 1], entries[i].path));
        law_write_spares_the_rest(
            replay(t, front, lazy),
            entries.last(),
            lazy,
            entries[i].path,
        );
    }
}

} // verus!
