//! Flattening a scene: putting its shapes in paint order and giving each rectangle its
//! compiled index.
//!
//! The entries of the scene are taken by ascending key; the members of a group by
//! descending key, a group among them being expanded in place. Entries with the same key
//! keep the order in which they were added.

use crate::error::Error;
use crate::scene::{Color, Referer, Shape, ShapeState, Z};
use vstd::prelude::*;
use vstd::string::StringSliceAdditionalSpecFns;

verus! {

/// A rectangle of the flattened scene.
#[derive(Clone, Copy, Debug, PartialEq, Eq, Structural)]
pub struct ShapeConstState {
    pub x: i32,
    pub y: i32,
    pub w: i32,
    pub h: i32,
    pub color: Color,
    /// Whether the author marked the shape as one whose state is never known.
    pub unknown: bool,
}

/// Whether the entry at index `i` must come before the entry at index `e`, which was
/// added earlier: its key is lower, or higher if the order is descending.
pub open spec fn goes_before(keys: Seq<Z>, descending: bool, i: int, e: int) -> bool {
    if descending {
        keys[e].below(keys[i])
    } else {
        keys[i].below(keys[e])
    }
}

/// The ordered list `sorted` with index `i` put in: before the entries it must come
/// before, after all others.
pub open spec fn inserted(keys: Seq<Z>, descending: bool, sorted: Seq<int>, i: int) -> Seq<int>
    decreases sorted.len(),
{
    if sorted.len() > 0 && goes_before(keys, descending, i, sorted.last()) {
        inserted(keys, descending, sorted.drop_last(), i).push(sorted.last())
    } else {
        sorted.push(i)
    }
}

/// The first `n` indices in the order of their keys; indices with the same key stay in
/// increasing order.
pub open spec fn order(keys: Seq<Z>, descending: bool, n: nat) -> Seq<int>
    decreases n,
{
    if n == 0 {
        Seq::empty()
    } else {
        inserted(keys, descending, order(keys, descending, (n - 1) as nat), n - 1)
    }
}

/// The indices as integers.
pub open spec fn as_ints(s: Seq<usize>) -> Seq<int> {
    Seq::new(s.len(), |k: int| s[k] as int)
}

/// Putting an index in is inserting it at the place where the entries that it must come
/// before begin.
pub proof fn lemma_inserted_at(keys: Seq<Z>, descending: bool, sorted: Seq<int>, i: int, p: int)
    requires
        0 <= p <= sorted.len(),
        forall|k: int| p <= k < sorted.len() ==> goes_before(keys, descending, i, sorted[k]),
        p > 0 ==> !goes_before(keys, descending, i, sorted[p - 1]),
    ensures
        inserted(keys, descending, sorted, i) == sorted.insert(p, i),
    decreases sorted.len(),
{
    if sorted.len() > 0 && goes_before(keys, descending, i, sorted.last()) {
        assert(p < sorted.len());
        let front = sorted.drop_last();
        assert forall|k: int| p <= k < front.len() implies goes_before(
            keys,
            descending,
            i,
            front[k],
        ) by {
            assert(front[k] == sorted[k]);
        }
        lemma_inserted_at(keys, descending, front, i, p);
        assert(front.insert(p, i).push(sorted.last()) =~= sorted.insert(p, i));
    } else {
        if p < sorted.len() {
            assert(goes_before(keys, descending, i, sorted[sorted.len() - 1]));
        }
        assert(sorted.push(i) =~= sorted.insert(p, i));
    }
}

/// The order holds each of the first `n` indices, and nothing else.
pub proof fn lemma_order_indices(keys: Seq<Z>, descending: bool, n: nat)
    ensures
        order(keys, descending, n).len() == n,
        forall|k: int| 0 <= k < n ==> 0 <= #[trigger] order(keys, descending, n)[k] < n,
        forall|i: int| 0 <= i < n ==> order(keys, descending, n).contains(i),
    decreases n,
{
    if n > 0 {
        let prev = order(keys, descending, (n - 1) as nat);
        lemma_order_indices(keys, descending, (n - 1) as nat);
        lemma_inserted_keeps(keys, descending, prev, n - 1);
        let now = order(keys, descending, n);
        assert forall|k: int| 0 <= k < n implies 0 <= #[trigger] now[k] < n by {
            assert(now.contains(now[k]));
            if now[k] != n - 1 {
                assert(prev.contains(now[k]));
                let j = choose|j: int| 0 <= j < prev.len() && prev[j] == now[k];
                assert(0 <= prev[j] < n - 1);
            }
        }
        assert forall|i: int| 0 <= i < n implies now.contains(i) by {
            if i < n - 1 {
                assert(prev.contains(i));
            }
        }
    }
}

/// Putting an index in adds it and keeps the others.
pub proof fn lemma_inserted_keeps(keys: Seq<Z>, descending: bool, sorted: Seq<int>, i: int)
    ensures
        inserted(keys, descending, sorted, i).len() == sorted.len() + 1,
        inserted(keys, descending, sorted, i).contains(i),
        forall|x: int| #[trigger]
            inserted(keys, descending, sorted, i).contains(x) ==> x == i || sorted.contains(x),
        forall|x: int| #[trigger]
            sorted.contains(x) ==> inserted(keys, descending, sorted, i).contains(x),
    decreases sorted.len(),
{
    let out = inserted(keys, descending, sorted, i);
    if sorted.len() > 0 && goes_before(keys, descending, i, sorted.last()) {
        let front = sorted.drop_last();
        let mid = inserted(keys, descending, front, i);
        lemma_inserted_keeps(keys, descending, front, i);
        assert(out == mid.push(sorted.last()));
        assert forall|x: int| #[trigger] out.contains(x) implies x == i || sorted.contains(x) by {
            let k = choose|k: int| 0 <= k < out.len() && out[k] == x;
            if k < mid.len() {
                assert(mid[k] == x);
                assert(mid.contains(x));
                if x != i {
                    assert(front.contains(x));
                    let j = choose|j: int| 0 <= j < front.len() && front[j] == x;
                    assert(sorted[j] == x);
                }
            } else {
                assert(sorted[sorted.len() - 1] == x);
            }
        }
        assert forall|x: int| #[trigger] sorted.contains(x) implies out.contains(x) by {
            let j = choose|j: int| 0 <= j < sorted.len() && sorted[j] == x;
            if j < front.len() {
                assert(front[j] == x);
                assert(front.contains(x));
                assert(mid.contains(x));
                let k = choose|k: int| 0 <= k < mid.len() && mid[k] == x;
                assert(out[k] == x);
            } else {
                assert(out[out.len() - 1] == x);
            }
        }
        assert(mid.contains(i));
        let k = choose|k: int| 0 <= k < mid.len() && mid[k] == i;
        assert(out[k] == i);
    } else {
        assert(out == sorted.push(i));
        assert forall|x: int| #[trigger] out.contains(x) implies x == i || sorted.contains(x) by {
            let k = choose|k: int| 0 <= k < out.len() && out[k] == x;
            if k < sorted.len() {
                assert(sorted[k] == x);
            }
        }
        assert forall|x: int| #[trigger] sorted.contains(x) implies out.contains(x) by {
            let j = choose|j: int| 0 <= j < sorted.len() && sorted[j] == x;
            assert(out[j] == x);
        }
        assert(out[sorted.len() as int] == i);
    }
}

/// Whether index `x` stands ahead of index `y` in the order: by its key, or by being the
/// earlier of two entries with the same key.
pub open spec fn ahead(keys: Seq<Z>, descending: bool, x: int, y: int) -> bool {
    goes_before(keys, descending, x, y) || (!goes_before(keys, descending, y, x) && x < y)
}

/// Whether every index of `s` stands ahead of those after it.
pub open spec fn in_order(keys: Seq<Z>, descending: bool, s: Seq<int>) -> bool {
    forall|a: int, b: int| 0 <= a < b < s.len() ==> ahead(keys, descending, s[a], s[b])
}

/// Putting a later index into an ordered list gives an ordered list.
pub proof fn lemma_inserted_in_order(keys: Seq<Z>, descending: bool, sorted: Seq<int>, i: int)
    requires
        in_order(keys, descending, sorted),
        forall|k: int| 0 <= k < sorted.len() ==> #[trigger] sorted[k] < i,
    ensures
        in_order(keys, descending, inserted(keys, descending, sorted, i)),
    decreases sorted.len(),
{
    let out = inserted(keys, descending, sorted, i);
    lemma_inserted_keeps(keys, descending, sorted, i);
    if sorted.len() > 0 && goes_before(keys, descending, i, sorted.last()) {
        let front = sorted.drop_last();
        let mid = inserted(keys, descending, front, i);
        assert forall|a: int, b: int| 0 <= a < b < front.len() implies ahead(
            keys,
            descending,
            front[a],
            front[b],
        ) by {
            assert(front[a] == sorted[a] && front[b] == sorted[b]);
        }
        assert forall|k: int| 0 <= k < front.len() implies #[trigger] front[k] < i by {
            assert(front[k] == sorted[k]);
        }
        lemma_inserted_in_order(keys, descending, front, i);
        lemma_inserted_keeps(keys, descending, front, i);
        assert forall|a: int, b: int| 0 <= a < b < out.len() implies ahead(
            keys,
            descending,
            out[a],
            out[b],
        ) by {
            if b < mid.len() {
                assert(out[a] == mid[a] && out[b] == mid[b]);
            } else {
                assert(out[b] == sorted.last());
                assert(out[a] == mid[a]);
                assert(mid.contains(mid[a]));
                if mid[a] != i {
                    assert(front.contains(mid[a]));
                    let j = choose|j: int| 0 <= j < front.len() && front[j] == mid[a];
                    assert(sorted[j] == mid[a]);
                    assert(ahead(keys, descending, sorted[j], sorted[sorted.len() - 1]));
                }
            }
        }
    } else {
        assert forall|a: int, b: int| 0 <= a < b < out.len() implies ahead(
            keys,
            descending,
            out[a],
            out[b],
        ) by {
            if b < sorted.len() {
                assert(out[a] == sorted[a] && out[b] == sorted[b]);
            } else {
                assert(out[b] == i);
                assert(out[a] == sorted[a]);
                if a < sorted.len() - 1 {
                    assert(ahead(keys, descending, sorted[a], sorted[sorted.len() - 1]));
                }
            }
        }
    }
}

/// In the order, every index stands ahead of those after it: keys ascend, or descend, and
/// entries with the same key keep the order in which they were added.
pub proof fn lemma_order_in_order(keys: Seq<Z>, descending: bool, n: nat)
    ensures
        in_order(keys, descending, order(keys, descending, n)),
    decreases n,
{
    if n > 0 {
        lemma_order_in_order(keys, descending, (n - 1) as nat);
        lemma_order_indices(keys, descending, (n - 1) as nat);
        lemma_inserted_in_order(keys, descending, order(keys, descending, (n - 1) as nat), n - 1);
    }
}

/// Whether the entry at index `i` must come before the entry at index `e`.
fn must_precede(keys: &Vec<Z>, descending: bool, i: usize, e: usize) -> (r: bool)
    requires
        i < keys@.len(),
        e < keys@.len(),
    ensures
        r == goes_before(keys@, descending, i as int, e as int),
{
    if descending {
        keys[e].is_below(&keys[i])
    } else {
        keys[i].is_below(&keys[e])
    }
}

/// The indices of `keys` in the order of the keys, ascending or descending; indices with
/// the same key stay in increasing order.
pub fn sorted_order(keys: &Vec<Z>, descending: bool) -> (r: Vec<usize>)
    ensures
        as_ints(r@) == order(keys@, descending, keys@.len()),
        forall|k: int| 0 <= k < r@.len() ==> #[trigger] r@[k] < keys@.len(),
{
    let n = keys.len();
    let mut ord: Vec<usize> = Vec::new();
    let mut i: usize = 0;
    assert(as_ints(ord@) =~= order(keys@, descending, 0));
    while i < n
        invariant
            i <= n,
            n == keys@.len(),
            as_ints(ord@) == order(keys@, descending, i as nat),
            ord@.len() == i,
            forall|k: int| 0 <= k < ord@.len() ==> #[trigger] ord@[k] < i,
        decreases n - i,
    {
        let mut p: usize = ord.len();
        while p > 0 && must_precede(keys, descending, i, ord[p - 1])
            invariant
                p <= ord@.len(),
                i < n,
                n == keys@.len(),
                forall|k: int| 0 <= k < ord@.len() ==> #[trigger] ord@[k] < i,
                forall|k: int|
                    p <= k < ord@.len() ==> goes_before(keys@, descending, i as int, ord@[k] as int),
            decreases p,
        {
            p -= 1;
        }
        let ghost before = ord@;
        ord.insert(p, i);
        proof {
            let sorted = as_ints(before);
            assert forall|k: int| p <= k < sorted.len() implies goes_before(
                keys@,
                descending,
                i as int,
                sorted[k],
            ) by {
                assert(sorted[k] == before[k] as int);
            }
            if p > 0 {
                assert(sorted[p - 1] == before[p - 1] as int);
            }
            lemma_inserted_at(keys@, descending, sorted, i as int, p as int);
            assert(as_ints(ord@) =~= sorted.insert(p as int, i as int));
        }
        i += 1;
    }
    ord
}

/// Whether `needle` occurs in `hay` as a run of consecutive bytes.
pub open spec fn is_infix(needle: Seq<u8>, hay: Seq<u8>) -> bool {
    exists|i: int| occurs_at(needle, hay, i)
}

/// Whether `needle` occurs in `hay` from position `i` on.
pub open spec fn occurs_at(needle: Seq<u8>, hay: Seq<u8>, i: int) -> bool {
    0 <= i && i + needle.len() <= hay.len() && hay.subrange(i, i + needle.len()) == needle
}

/// Whether a shape of this name counts as one whose state is never known: the name holds
/// `UNKNOWN` or `CONTROL`.
pub open spec fn name_is_unknown(name: Seq<u8>) -> bool {
    is_infix("UNKNOWN".spec_bytes(), name) || is_infix("CONTROL".spec_bytes(), name)
}

/// Whether `needle` occurs in `hay` as a run of consecutive bytes.
pub fn contains_bytes(hay: &[u8], needle: &[u8]) -> (r: bool)
    ensures
        r == is_infix(needle@, hay@),
{
    let n = needle.len();
    let h = hay.len();
    if n > h {
        return false;
    }
    let mut i: usize = 0;
    while i <= h - n
        invariant
            n <= h,
            n == needle@.len(),
            h == hay@.len(),
            i <= h - n + 1,
            forall|j: int| 0 <= j < i ==> !occurs_at(needle@, hay@, j),
        decreases h - n + 1 - i,
    {
        let mut k: usize = 0;
        while k < n && hay[i + k] == needle[k]
            invariant
                k <= n,
                i + n <= h,
                n == needle@.len(),
                h == hay@.len(),
                forall|j: int| 0 <= j < k ==> hay@[i + j] == needle@[j],
            decreases n - k,
        {
            k += 1;
        }
        if k == n {
            assert(hay@.subrange(i as int, i + n) =~= needle@);
            assert(occurs_at(needle@, hay@, i as int));
            return true;
        }
        assert(hay@.subrange(i as int, i + n)[k as int] != needle@[k as int]);
        i += 1;
    }
    false
}

/// Whether a shape of this name counts as one whose state is never known.
pub fn marks_unknown(name: &str) -> (r: bool)
    ensures
        r == name_is_unknown(name.spec_bytes()),
{
    let bytes = name.as_bytes();
    contains_bytes(bytes, "UNKNOWN".as_bytes()) || contains_bytes(bytes, "CONTROL".as_bytes())
}

/// The flattened rectangle of a shape.
pub open spec fn leaf_of(name: &str, state: ShapeState) -> ShapeConstState {
    ShapeConstState {
        x: state.x,
        y: state.y,
        w: state.w,
        h: state.h,
        color: state.color,
        unknown: name_is_unknown(name.spec_bytes()),
    }
}

/// The keys of a list of shapes.
pub open spec fn keys_of(shapes: Seq<Shape>) -> Seq<Z> {
    Seq::new(shapes.len(), |i: int| shapes[i].key())
}

/// The rectangles of a shape in paint order: the shape itself, or those of the members
/// of the group, taken by descending key.
pub open spec fn flat(shape: Shape) -> Seq<ShapeConstState>
    decreases shape,
{
    match shape {
        Shape::Shape { name, state, .. } => seq![leaf_of(name, state)],
        Shape::Group { shapes, .. } => flat_in_order(
            shapes@,
            order(keys_of(shapes@), true, shapes@.len()),
            shapes@.len(),
        ),
    }
}

/// The rectangles of the shapes named by the first `k` entries of `ord`, in that order.
pub open spec fn flat_in_order(shapes: Seq<Shape>, ord: Seq<int>, k: nat) -> Seq<ShapeConstState>
    decreases shapes, k,
{
    if k == 0 || k > ord.len() {
        Seq::empty()
    } else {
        flat_in_order(shapes, ord, (k - 1) as nat) + (if 0 <= ord[k - 1] < shapes.len() {
            flat(shapes[ord[k - 1]])
        } else {
            Seq::empty()
        })
    }
}

/// The handle of a shape whose rectangles start at compiled index `start`.
pub open spec fn referer_of(shape: Shape, start: int) -> Referer {
    match shape {
        Shape::Shape { .. } => Referer::Shape(start as usize),
        Shape::Group { .. } => Referer::Group(start as usize, flat(shape).len() as usize),
    }
}

/// The handles of the shapes, by authoring index, once the shapes named by the first `k`
/// entries of `ord` were flattened; the others still have the handle of shape 0.
pub open spec fn refs_upto(shapes: Seq<Shape>, ord: Seq<int>, k: nat) -> Seq<Referer>
    decreases k,
{
    if k == 0 || k > ord.len() {
        Seq::new(shapes.len(), |i: int| Referer::Shape(0))
    } else {
        let before = refs_upto(shapes, ord, (k - 1) as nat);
        if 0 <= ord[k - 1] < shapes.len() {
            before.update(
                ord[k - 1],
                referer_of(shapes[ord[k - 1]], flat_in_order(shapes, ord, (k - 1) as nat).len() as int),
            )
        } else {
            before
        }
    }
}

/// The shapes of a scene, without their authoring indices.
pub open spec fn tops(entries: Seq<(usize, Shape)>) -> Seq<Shape> {
    Seq::new(entries.len(), |i: int| entries[i].1)
}

/// The rectangles of a scene in paint order: the entries by ascending key, each with all
/// its rectangles.
pub open spec fn flat_scene(entries: Seq<(usize, Shape)>) -> Seq<ShapeConstState> {
    let shapes = tops(entries);
    flat_in_order(shapes, order(keys_of(shapes), false, shapes.len()), shapes.len())
}

/// The handle of every entry of a scene, by authoring index.
pub open spec fn refs_scene(entries: Seq<(usize, Shape)>) -> Seq<Referer> {
    let shapes = tops(entries);
    refs_upto(shapes, order(keys_of(shapes), false, shapes.len()), shapes.len())
}

/// Whether some entry of a scene is a group.
pub open spec fn holds_group(entries: Seq<(usize, Shape)>) -> bool {
    exists|i: int| 0 <= i < entries.len() && (#[trigger] entries[i]).1 is Group
}

/// Whether some entry of a scene is a group.
pub fn has_group(entries: &Vec<(usize, Shape)>) -> (r: bool)
    ensures
        r == holds_group(entries@),
{
    let mut i: usize = 0;
    while i < entries.len()
        invariant
            i <= entries@.len(),
            forall|j: int| 0 <= j < i ==> !((#[trigger] entries@[j]).1 is Group),
        decreases entries@.len() - i,
    {
        match &entries[i].1 {
            Shape::Group { .. } => {
                return true;
            },
            Shape::Shape { .. } => {},
        }
        i += 1;
    }
    false
}

/// A scene in compiled form: its rectangles in paint order, and the handle of each of its
/// entries.
#[derive(Debug)]
pub struct Flattened {
    /// For each authoring index, the compiled index of the shape, or the run of
    /// compiled indices of the group.
    pub refs: Vec<Referer>,
    /// The rectangles, by compiled index.
    pub states: Vec<ShapeConstState>,
}

/// The keys of a list of shapes.
fn collect_keys(shapes: &Vec<Shape>) -> (r: Vec<Z>)
    ensures
        r@ == keys_of(shapes@),
{
    let mut keys: Vec<Z> = Vec::new();
    let mut k: usize = 0;
    while k < shapes.len()
        invariant
            k <= shapes@.len(),
            keys@ == keys_of(shapes@).take(k as int),
        decreases shapes@.len() - k,
    {
        keys.push(shapes[k].z());
        assert(keys@ =~= keys_of(shapes@).take(k + 1));
        k += 1;
    }
    assert(keys_of(shapes@).take(k as int) =~= keys_of(shapes@));
    keys
}

/// Appends to `out` the rectangles of `shape`, in paint order.
#[verifier::loop_isolation(false)]
pub fn expand(shape: &Shape, out: &mut Vec<ShapeConstState>)
    ensures
        final(out)@ == old(out)@ + flat(*shape),
    decreases shape,
{
    match shape {
        Shape::Shape { name, state, .. } => {
            out.push(
                ShapeConstState {
                    x: state.x,
                    y: state.y,
                    w: state.w,
                    h: state.h,
                    color: state.color,
                    unknown: marks_unknown(name),
                },
            );
            assert(out@ =~= old(out)@ + flat(*shape));
        },
        Shape::Group { shapes, .. } => {
            let keys = collect_keys(shapes);
            let ord = sorted_order(&keys, true);
            let ghost spec_ord = order(keys_of(shapes@), true, shapes@.len());
            proof {
                lemma_order_indices(keys_of(shapes@), true, shapes@.len());
            }
            let mut k: usize = 0;
            assert(out@ =~= old(out)@ + flat_in_order(shapes@, spec_ord, 0));
            while k < ord.len()
                invariant
                    k <= ord@.len(),
                    as_ints(ord@) == spec_ord,
                    out@ == old(out)@ + flat_in_order(shapes@, spec_ord, k as nat),
                decreases ord@.len() - k,
            {
                let ghost before = out@;
                assert(spec_ord[k as int] == ord@[k as int]);
                expand(&shapes[ord[k]], out);
                assert(out@ =~= old(out)@ + flat_in_order(shapes@, spec_ord, (k + 1) as nat));
                k += 1;
            }
        },
    }
}

/// Flattens a scene: lists its rectangles in paint order and gives every entry its
/// handle. The entries must carry the index at which they stand; the call fails with
/// `IndexOutOfRange` if one does not.
pub fn flatten(entries: &Vec<(usize, Shape)>) -> (r: Result<Flattened, Error>)
    ensures
        match r {
            Ok(flat) => {
                &&& forall|i: int| 0 <= i < entries@.len() ==> (#[trigger] entries@[i]).0 == i
                &&& flat.states@ == flat_scene(entries@)
                &&& flat.refs@ == refs_scene(entries@)
            },
            Err(e) => e == Error::IndexOutOfRange && exists|i: int|
                0 <= i < entries@.len() && (#[trigger] entries@[i]).0 != i,
        },
{
    let n = entries.len();
    let ghost shapes = tops(entries@);
    let mut keys: Vec<Z> = Vec::new();
    let mut refs: Vec<Referer> = Vec::new();
    let mut k: usize = 0;
    while k < n
        invariant
            k <= n,
            n == entries@.len(),
            shapes == tops(entries@),
            keys@ == keys_of(shapes).take(k as int),
            refs@ == Seq::new(k as nat, |i: int| Referer::Shape(0)),
            forall|i: int| 0 <= i < k ==> (#[trigger] entries@[i]).0 == i,
        decreases n - k,
    {
        if entries[k].0 != k {
            return Err(Error::IndexOutOfRange);
        }
        keys.push(entries[k].1.z());
        refs.push(Referer::Shape(0));
        assert(keys@ =~= keys_of(shapes).take(k + 1));
        assert(refs@ =~= Seq::new((k + 1) as nat, |i: int| Referer::Shape(0)));
        k += 1;
    }
    assert(keys_of(shapes).take(k as int) =~= keys_of(shapes));
    let ord = sorted_order(&keys, false);
    let ghost spec_ord = order(keys_of(shapes), false, n as nat);
    proof {
        lemma_order_indices(keys_of(shapes), false, n as nat);
    }
    let mut states: Vec<ShapeConstState> = Vec::new();
    let mut k: usize = 0;
    assert(states@ =~= flat_in_order(shapes, spec_ord, 0));
    while k < ord.len()
        invariant
            k <= ord@.len(),
            n == entries@.len(),
            ord@.len() == n,
            shapes == tops(entries@),
            as_ints(ord@) == spec_ord,
            forall|j: int| 0 <= j < n ==> 0 <= #[trigger] spec_ord[j] < n,
            states@ == flat_in_order(shapes, spec_ord, k as nat),
            refs@ == refs_upto(shapes, spec_ord, k as nat),
            refs@.len() == n,
        decreases ord@.len() - k,
    {
        let index = ord[k];
        assert(spec_ord[k as int] == index);
        let start = states.len();
        let shape = &entries[index].1;
        expand(shape, &mut states);
        let referer = match shape {
            Shape::Shape { .. } => Referer::Shape(start),
            Shape::Group { .. } => Referer::Group(start, states.len() - start),
        };
        refs.set(index, referer);
        proof {
            assert(shapes[index as int] == *shape);
            assert(states@ =~= flat_in_order(shapes, spec_ord, (k + 1) as nat));
            assert(flat(*shape).len() == states@.len() - start);
        }
        k += 1;
    }
    Ok(Flattened { refs, states })
}

} // verus!
