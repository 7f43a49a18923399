//! The 4-connected components of the foreground of a mask.

use vstd::prelude::*;
use crate::raster::{
    lemma_offset_in_range,
    lemma_offset_of_position,
    offset,
    GrayRaster,
    GrayView,
};

verus! {

/// The position `p` lies inside the mask and its pixel is set.
pub open spec fn foreground(mask: GrayView, p: (int, int)) -> bool {
    mask.inside(p.0, p.1) && mask.at(p.0, p.1) > 0
}

/// The two positions are next to each other in a row or in a column.
pub open spec fn neighbours(a: (int, int), b: (int, int)) -> bool {
    (a.0 == b.0 && (a.1 == b.1 + 1 || b.1 == a.1 + 1)) || (a.1 == b.1 && (a.0 == b.0 + 1 || b.0
        == a.0 + 1))
}

/// `path` is a walk over foreground pixels that steps from neighbour to
/// neighbour.
pub open spec fn is_path(mask: GrayView, path: Seq<(int, int)>) -> bool {
    &&& path.len() > 0
    &&& forall|i: int| 0 <= i < path.len() ==> foreground(mask, #[trigger] path[i])
    &&& forall|i: int| 0 <= i < path.len() - 1 ==> neighbours(#[trigger] path[i], path[i + 1])
}

/// There is a walk over foreground pixels from `a` to `b`.
pub open spec fn connected(mask: GrayView, a: (int, int), b: (int, int)) -> bool {
    exists|path: Seq<(int, int)>| #[trigger] is_path(mask, path) && path[0] == a && path.last() == b
}

/// A position as a pair of integers.
pub open spec fn pt(p: (u32, u32)) -> (int, int) {
    (p.0 as int, p.1 as int)
}

/// `q` is one of the positions of `s`.
pub open spec fn holds(s: Seq<(u32, u32)>, q: (int, int)) -> bool {
    exists|k: int| 0 <= k < s.len() && pt(#[trigger] s[k]) == q
}

/// The mark of position `p` in a row-major list of marks.
pub open spec fn marked(marks: Seq<bool>, width: int, p: (int, int)) -> bool {
    marks[p.1 * width + p.0]
}

/// The marks cover whole components: there is one mark for each pixel, only
/// foreground pixels are marked, and a foreground neighbour of a marked pixel
/// is marked.
pub open spec fn settled(mask: GrayView, marks: Seq<bool>) -> bool {
    &&& mask.wf()
    &&& marks.len() == mask.width * mask.height
    &&& forall|x: int, y: int|
        mask.inside(x, y) && #[trigger] marked(marks, mask.width as int, (x, y)) ==> foreground(
            mask,
            (x, y),
        )
    &&& forall|p: (int, int), q: (int, int)|
        mask.inside(p.0, p.1) && marked(marks, mask.width as int, p) && foreground(mask, q)
            && #[trigger] neighbours(p, q) ==> marked(marks, mask.width as int, q)
}

/// How many of the marks are not set.
pub open spec fn unmarked(marks: Seq<bool>) -> nat
    decreases marks.len(),
{
    if marks.len() == 0 {
        0
    } else {
        unmarked(marks.drop_last()) + if marks.last() {
            0nat
        } else {
            1nat
        }
    }
}

proof fn lemma_mark_one(marks: Seq<bool>, i: int)
    requires
        0 <= i < marks.len(),
        !marks[i],
    ensures
        unmarked(marks.update(i, true)) + 1 == unmarked(marks),
    decreases marks.len(),
{
    let after = marks.update(i, true);
    if i == marks.len() - 1 {
        assert(after.drop_last() =~= marks.drop_last());
    } else {
        assert(after.drop_last() =~= marks.drop_last().update(i, true));
        lemma_mark_one(marks.drop_last(), i);
    }
}

/// A foreground pixel is connected to itself.
pub proof fn lemma_connected_here(mask: GrayView, a: (int, int))
    requires
        foreground(mask, a),
    ensures
        connected(mask, a, a),
{
    let path = seq![a];
    assert(is_path(mask, path));
    assert(path[0] == a && path.last() == a);
}

/// A walk can be carried on to a foreground neighbour of its end.
pub proof fn lemma_connected_step(mask: GrayView, a: (int, int), b: (int, int), c: (int, int))
    requires
        connected(mask, a, b),
        neighbours(b, c),
        foreground(mask, c),
    ensures
        connected(mask, a, c),
{
    let path = choose|path: Seq<(int, int)>| #[trigger]
        is_path(mask, path) && path[0] == a && path.last() == b;
    let longer = path.push(c);
    assert forall|i: int| 0 <= i < longer.len() implies foreground(mask, #[trigger] longer[i]) by {
        if i < path.len() {
            assert(longer[i] == path[i]);
        }
    }
    assert forall|i: int| 0 <= i < longer.len() - 1 implies neighbours(
        #[trigger] longer[i],
        longer[i + 1],
    ) by {
        if i < path.len() - 1 {
            assert(longer[i] == path[i]);
            assert(longer[i + 1] == path[i + 1]);
        } else {
            assert(longer[i] == b);
        }
    }
    assert(is_path(mask, longer));
    assert(longer[0] == a && longer.last() == c);
}

/// The pixels of a set that holds the start of a walk and is closed under
/// foreground neighbours hold every pixel of the walk.
proof fn lemma_walk_stays(mask: GrayView, pixels: Seq<(u32, u32)>, path: Seq<(int, int)>, i: int)
    requires
        is_path(mask, path),
        holds(pixels, path[0]),
        forall|k: int, q: (int, int)|
            0 <= k < pixels.len() && foreground(mask, q) && #[trigger] neighbours(pt(pixels[k]), q)
                ==> holds(pixels, q),
        0 <= i < path.len(),
    ensures
        holds(pixels, path[i]),
    decreases i,
{
    if i > 0 {
        lemma_walk_stays(mask, pixels, path, i - 1);
        let k = choose|k: int| 0 <= k < pixels.len() && pt(#[trigger] pixels[k]) == path[i - 1];
        assert(neighbours(path[i - 1], path[i - 1 + 1]));
        assert(neighbours(pt(pixels[k]), path[i]));
    }
}

/// What the tracing loop knows: the new marks are those of the pixels found
/// so far, which are connected to the seed; whatever is on the stack is the
/// seed or a neighbour of a found pixel; and every foreground neighbour of a
/// found pixel is found or on the stack.
#[verifier::opaque]
spec fn tracing(
    mask: GrayView,
    before: Seq<bool>,
    marks: Seq<bool>,
    pixels: Seq<(u32, u32)>,
    stack: Seq<(u32, u32)>,
    seed: (int, int),
) -> bool {
    let w = mask.width as int;
    &&& settled(mask, before)
    &&& foreground(mask, seed)
    &&& !marked(before, w, seed)
    &&& marks.len() == before.len()
    &&& forall|x: int, y: int|
        mask.inside(x, y) ==> (#[trigger] marked(marks, w, (x, y)) <==> marked(before, w, (x, y))
            || holds(pixels, (x, y)))
    &&& forall|k: int|
        0 <= k < pixels.len() ==> foreground(mask, pt(#[trigger] pixels[k])) && connected(
            mask,
            seed,
            pt(pixels[k]),
        ) && !marked(before, w, pt(pixels[k]))
    &&& forall|i: int, j: int| 0 <= i < j < pixels.len() ==> #[trigger] pixels[i] != #[trigger] pixels[j]
    &&& forall|k: int|
        0 <= k < stack.len() ==> mask.inside(pt(#[trigger] stack[k]).0, pt(stack[k]).1) && (pt(
            stack[k],
        ) == seed || exists|j: int|
            0 <= j < pixels.len() && neighbours(pt(#[trigger] pixels[j]), pt(stack[k])))
    &&& forall|k: int, q: (int, int)|
        0 <= k < pixels.len() && foreground(mask, q) && #[trigger] neighbours(pt(pixels[k]), q)
            ==> holds(pixels, q) || holds(stack, q)
    &&& holds(pixels, seed) || holds(stack, seed)
}

proof fn lemma_tracing_start(mask: GrayView, before: Seq<bool>, seed: (u32, u32))
    requires
        settled(mask, before),
        foreground(mask, pt(seed)),
        !marked(before, mask.width as int, pt(seed)),
    ensures
        tracing(mask, before, before, Seq::empty(), seq![seed], pt(seed)),
{
    reveal(tracing);
    let stack = seq![seed];
    assert(pt(stack[0]) == pt(seed));
    assert(holds(stack, pt(seed)));
}

/// A popped position that is marked already is dropped.
proof fn lemma_tracing_drop_marked(
    mask: GrayView,
    before: Seq<bool>,
    marks: Seq<bool>,
    pixels: Seq<(u32, u32)>,
    stack: Seq<(u32, u32)>,
    seed: (int, int),
)
    requires
        tracing(mask, before, marks, pixels, stack, seed),
        stack.len() > 0,
        marked(marks, mask.width as int, pt(stack.last())),
    ensures
        tracing(mask, before, marks, pixels, stack.drop_last(), seed),
{
    reveal(tracing);
    let w = mask.width as int;
    let s = stack.last();
    let rest = stack.drop_last();
    assert(mask.inside(pt(s).0, pt(s).1));
    assert(marked(before, w, pt(s)) || holds(pixels, pt(s)));
    if marked(before, w, pt(s)) {
        assert(foreground(mask, pt(s)));
        if pt(s) != seed {
            let j = choose|j: int| 0 <= j < pixels.len() && neighbours(pt(#[trigger] pixels[j]), pt(s));
            assert(neighbours(pt(s), pt(pixels[j])));
            assert(marked(before, w, pt(pixels[j])));
        }
        assert(false);
    }
    assert(holds(pixels, pt(s)));
    assert forall|q: (int, int)| holds(stack, q) implies holds(pixels, q) || holds(rest, q) by {
        let k = choose|k: int| 0 <= k < stack.len() && pt(#[trigger] stack[k]) == q;
        if k < rest.len() {
            assert(rest[k] == stack[k]);
        }
    }
    assert forall|k: int| 0 <= k < rest.len() implies mask.inside(
        pt(#[trigger] rest[k]).0,
        pt(rest[k]).1,
    ) && (pt(rest[k]) == seed || exists|j: int|
        0 <= j < pixels.len() && neighbours(pt(#[trigger] pixels[j]), pt(rest[k]))) by {
        assert(rest[k] == stack[k]);
    }
}

/// A popped position that is not set in the mask is dropped.
proof fn lemma_tracing_drop_background(
    mask: GrayView,
    before: Seq<bool>,
    marks: Seq<bool>,
    pixels: Seq<(u32, u32)>,
    stack: Seq<(u32, u32)>,
    seed: (int, int),
)
    requires
        tracing(mask, before, marks, pixels, stack, seed),
        stack.len() > 0,
        !foreground(mask, pt(stack.last())),
    ensures
        tracing(mask, before, marks, pixels, stack.drop_last(), seed),
{
    reveal(tracing);
    let s = stack.last();
    let rest = stack.drop_last();
    assert forall|q: (int, int)| holds(stack, q) && foreground(mask, q) implies holds(rest, q) by {
        let k = choose|k: int| 0 <= k < stack.len() && pt(#[trigger] stack[k]) == q;
        assert(rest[k] == stack[k]);
    }
    assert forall|k: int| 0 <= k < rest.len() implies mask.inside(
        pt(#[trigger] rest[k]).0,
        pt(rest[k]).1,
    ) && (pt(rest[k]) == seed || exists|j: int|
        0 <= j < pixels.len() && neighbours(pt(#[trigger] pixels[j]), pt(rest[k]))) by {
        assert(rest[k] == stack[k]);
    }
}

/// The foreground neighbours of `p` are all among the last positions of
/// `stack`, those after the first `base`.
spec fn pushed_around(mask: GrayView, stack: Seq<(u32, u32)>, base: int, p: (int, int)) -> bool {
    &&& 0 <= base <= stack.len()
    &&& forall|k: int|
        base <= k < stack.len() ==> mask.inside(pt(#[trigger] stack[k]).0, pt(stack[k]).1)
            && neighbours(p, pt(stack[k]))
    &&& forall|q: (int, int)|
        mask.inside(q.0, q.1) && #[trigger] neighbours(p, q) ==> exists|k: int|
            base <= k < stack.len() && pt(#[trigger] stack[k]) == q
}

/// A popped position that is set and not marked joins the pixels, and its
/// neighbours go on the stack.
proof fn lemma_tracing_take(
    mask: GrayView,
    before: Seq<bool>,
    marks: Seq<bool>,
    pixels: Seq<(u32, u32)>,
    stack: Seq<(u32, u32)>,
    seed: (int, int),
    grown: Seq<(u32, u32)>,
)
    requires
        tracing(mask, before, marks, pixels, stack, seed),
        stack.len() > 0,
        foreground(mask, pt(stack.last())),
        !marked(marks, mask.width as int, pt(stack.last())),
        grown.len() >= stack.len() - 1,
        grown.subrange(0, stack.len() - 1) == stack.drop_last(),
        pushed_around(mask, grown, stack.len() - 1, pt(stack.last())),
    ensures
        tracing(
            mask,
            before,
            marks.update(pt(stack.last()).1 * mask.width + pt(stack.last()).0, true),
            pixels.push(stack.last()),
            grown,
            seed,
        ),
        0 <= pt(stack.last()).1 * mask.width + pt(stack.last()).0 < marks.len(),
        !marks[pt(stack.last()).1 * mask.width + pt(stack.last()).0],
{
    reveal(tracing);
    let w = mask.width as int;
    let s = stack.last();
    let p = pt(s);
    let rest = stack.drop_last();
    let base = stack.len() - 1;
    let idx = p.1 * w + p.0;
    let marks2 = marks.update(idx, true);
    let pixels2 = pixels.push(s);
    lemma_offset_in_range(p.0, p.1, w, mask.height as int);
    assert(pixels2[pixels.len() as int] == s);
    assert(holds(pixels2, p));
    assert forall|q: (int, int)| holds(pixels, q) implies holds(pixels2, q) by {
        let k = choose|k: int| 0 <= k < pixels.len() && pt(#[trigger] pixels[k]) == q;
        assert(pixels2[k] == pixels[k]);
    }
    assert forall|q: (int, int)| holds(pixels2, q) implies holds(pixels, q) || q == p by {
        let k = choose|k: int| 0 <= k < pixels2.len() && pt(#[trigger] pixels2[k]) == q;
        if k < pixels.len() {
            assert(pixels2[k] == pixels[k]);
        }
    }
    assert(!holds(pixels, p)) by {
        if holds(pixels, p) {
            assert(marked(marks, w, p));
        }
    }
    assert forall|q: (int, int)| holds(stack, q) implies holds(grown, q) || q == p by {
        let k = choose|k: int| 0 <= k < stack.len() && pt(#[trigger] stack[k]) == q;
        if k < base {
            assert(grown.subrange(0, base)[k] == rest[k]);
            assert(grown[k] == stack[k]);
        }
    }
    assert forall|x: int, y: int| mask.inside(x, y) implies (#[trigger] marked(marks2, w, (x, y))
        <==> marked(before, w, (x, y)) || holds(pixels2, (x, y))) by {
        lemma_offset_in_range(x, y, w, mask.height as int);
        if (x, y) == p {
        } else {
            lemma_offset_of_position(x, y, w);
            lemma_offset_of_position(p.0, p.1, w);
            assert(y * w + x != idx);
            assert(marked(marks2, w, (x, y)) == marked(marks, w, (x, y)));
        }
    }
    assert(connected(mask, seed, p)) by {
        if p == seed {
            lemma_connected_here(mask, seed);
        } else {
            let j = choose|j: int| 0 <= j < pixels.len() && neighbours(pt(#[trigger] pixels[j]), p);
            lemma_connected_step(mask, seed, pt(pixels[j]), p);
        }
    }
    assert(!marked(before, w, p)) by {
        if marked(before, w, p) {
            assert(marked(marks, w, p));
        }
    }
    assert forall|k: int| 0 <= k < pixels2.len() implies foreground(mask, pt(#[trigger] pixels2[k]))
        && connected(mask, seed, pt(pixels2[k])) && !marked(before, w, pt(pixels2[k])) by {
        if k < pixels.len() {
            assert(pixels2[k] == pixels[k]);
        }
    }
    assert forall|i: int, j: int| 0 <= i < j < pixels2.len() implies #[trigger] pixels2[i]
        != #[trigger] pixels2[j] by {
        if j < pixels.len() {
            assert(pixels2[i] == pixels[i] && pixels2[j] == pixels[j]);
        } else {
            assert(pixels2[i] == pixels[i]);
            if pixels[i] == s {
                assert(pt(pixels[i]) == p);
                assert(holds(pixels, p));
            }
        }
    }
    assert forall|k: int| 0 <= k < grown.len() implies mask.inside(
        pt(#[trigger] grown[k]).0,
        pt(grown[k]).1,
    ) && (pt(grown[k]) == seed || exists|j: int|
        0 <= j < pixels2.len() && neighbours(pt(#[trigger] pixels2[j]), pt(grown[k]))) by {
        if k < base {
            assert(grown.subrange(0, base)[k] == rest[k]);
            assert(grown[k] == stack[k]);
            if pt(stack[k]) != seed {
                let j = choose|j: int|
                    0 <= j < pixels.len() && neighbours(pt(#[trigger] pixels[j]), pt(stack[k]));
                assert(pixels2[j] == pixels[j]);
            }
        } else {
            assert(neighbours(pt(pixels2[pixels.len() as int]), pt(grown[k])));
        }
    }
    assert forall|k: int, q: (int, int)|
        0 <= k < pixels2.len() && foreground(mask, q) && #[trigger] neighbours(
            pt(pixels2[k]),
            q,
        ) implies holds(pixels2, q) || holds(grown, q) by {
        if k < pixels.len() {
            assert(pixels2[k] == pixels[k]);
            assert(holds(pixels, q) || holds(stack, q));
        } else {
            assert(neighbours(p, q));
            let t = choose|t: int| base <= t < grown.len() && pt(#[trigger] grown[t]) == q;
            assert(holds(grown, q));
        }
    }
    assert(holds(pixels2, seed) || holds(grown, seed));
}

/// When the stack is empty the found pixels are the component of the seed.
proof fn lemma_tracing_done(
    mask: GrayView,
    before: Seq<bool>,
    marks: Seq<bool>,
    pixels: Seq<(u32, u32)>,
    seed: (int, int),
)
    requires
        tracing(mask, before, marks, pixels, Seq::empty(), seed),
    ensures
        is_component(mask, pixels, seed),
        settled(mask, marks),
        forall|x: int, y: int|
            mask.inside(x, y) ==> (#[trigger] marked(marks, mask.width as int, (x, y)) <==> marked(
                before,
                mask.width as int,
                (x, y),
            ) || connected(mask, seed, (x, y))),
        forall|k: int|
            0 <= k < pixels.len() ==> foreground(mask, pt(#[trigger] pixels[k])) && !marked(
                before,
                mask.width as int,
                pt(pixels[k]),
            ),
{
    reveal(tracing);
    let w = mask.width as int;
    let none = Seq::<(u32, u32)>::empty();
    assert forall|q: (int, int)| !holds(none, q) by {}
    assert(holds(pixels, seed));
    assert forall|q: (int, int)| connected(mask, seed, q) implies holds(pixels, q) by {
        let path = choose|path: Seq<(int, int)>| #[trigger]
            is_path(mask, path) && path[0] == seed && path.last() == q;
        lemma_walk_stays(mask, pixels, path, path.len() - 1);
    }
    assert forall|x: int, y: int| mask.inside(x, y) implies (#[trigger] marked(marks, w, (x, y))
        <==> marked(before, w, (x, y)) || connected(mask, seed, (x, y))) by {
        if holds(pixels, (x, y)) {
            let k = choose|k: int| 0 <= k < pixels.len() && pt(#[trigger] pixels[k]) == (x, y);
            assert(connected(mask, seed, pt(pixels[k])));
        }
    }
    assert forall|x: int, y: int|
        mask.inside(x, y) && #[trigger] marked(marks, w, (x, y)) implies foreground(
        mask,
        (x, y),
    ) by {
        if holds(pixels, (x, y)) {
            let k = choose|k: int| 0 <= k < pixels.len() && pt(#[trigger] pixels[k]) == (x, y);
            assert(foreground(mask, pt(pixels[k])));
        }
    }
    assert forall|p: (int, int), q: (int, int)|
        mask.inside(p.0, p.1) && marked(marks, w, p) && foreground(mask, q) && #[trigger] neighbours(
            p,
            q,
        ) implies marked(marks, w, q) by {
        assert(marked(marks, w, (p.0, p.1)));
        assert(marked(marks, w, (q.0, q.1)) <==> marked(before, w, (q.0, q.1)) || holds(
            pixels,
            (q.0, q.1),
        ));
        if marked(before, w, p) {
            assert(marked(before, w, q));
        } else {
            assert(holds(pixels, (p.0, p.1)));
            let k = choose|k: int| 0 <= k < pixels.len() && pt(#[trigger] pixels[k]) == p;
            assert(neighbours(pt(pixels[k]), q));
        }
    }
}

/// `pixels` lists the pixels connected to `seed`, each once.
pub open spec fn is_component(mask: GrayView, pixels: Seq<(u32, u32)>, seed: (int, int)) -> bool {
    &&& forall|k: int| 0 <= k < pixels.len() ==> connected(mask, seed, pt(#[trigger] pixels[k]))
    &&& forall|q: (int, int)| #[trigger] connected(mask, seed, q) ==> holds(pixels, q)
    &&& forall|i: int, j: int| 0 <= i < j < pixels.len() ==> #[trigger] pixels[i] != #[trigger] pixels[j]
}

/// Marks the component of the seed and lists its pixels, in the order in
/// which a depth-first walk that tries left, right, up and down last to
/// first meets them.
pub fn trace_component(mask: &GrayRaster, seed_x: u32, seed_y: u32, marks: &mut Vec<bool>) -> (pixels:
    Vec<(u32, u32)>)
    requires
        settled(mask@, old(marks)@),
        foreground(mask@, (seed_x as int, seed_y as int)),
        !marked(old(marks)@, mask@.width as int, (seed_x as int, seed_y as int)),
    ensures
        is_component(mask@, pixels@, (seed_x as int, seed_y as int)),
        settled(mask@, final(marks)@),
        forall|x: int, y: int|
            mask@.inside(x, y) ==> (#[trigger] marked(final(marks)@, mask@.width as int, (x, y))
                <==> marked(old(marks)@, mask@.width as int, (x, y)) || connected(
                mask@,
                (seed_x as int, seed_y as int),
                (x, y),
            )),
        forall|k: int|
            0 <= k < pixels@.len() ==> foreground(mask@, pt(#[trigger] pixels@[k])) && !marked(
                old(marks)@,
                mask@.width as int,
                pt(pixels@[k]),
            ),
{
    let (width, height) = mask.dimensions();
    let total: usize = marks.len();
    let ghost before = marks@;
    let ghost seed = (seed_x as int, seed_y as int);
    let mut pixels: Vec<(u32, u32)> = Vec::new();
    let mut stack: Vec<(u32, u32)> = Vec::new();
    stack.push((seed_x, seed_y));
    proof {
        lemma_tracing_start(mask@, before, (seed_x, seed_y));
        assert(stack@ =~= seq![(seed_x, seed_y)]);
        assert(pixels@ =~= Seq::<(u32, u32)>::empty());
    }
    while stack.len() > 0
        invariant
            mask@.wf(),
            mask@.width == width,
            mask@.height == height,
            marks@.len() == width * height,
            total == width * height,
            seed == (seed_x as int, seed_y as int),
            tracing(mask@, before, marks@, pixels@, stack@, seed),
        decreases unmarked(marks@), stack@.len(),
    {
        let ghost old_stack = stack@;
        let ghost old_marks = marks@;
        let s = stack.pop().unwrap();
        let (x, y) = s;
        assert(old_stack.last() == s);
        assert(stack@ =~= old_stack.drop_last());
        proof {
            reveal(tracing);
            assert(mask@.inside(pt(old_stack[old_stack.len() - 1]).0, pt(old_stack[old_stack.len() - 1]).1));
            lemma_offset_in_range(x as int, y as int, width as int, height as int);
        }
        let i = offset(x, y, width, height);
        if marks[i] {
            proof {
                lemma_tracing_drop_marked(mask@, before, old_marks, pixels@, old_stack, seed);
            }
        } else if mask.get_pixel(x, y) == 0 {
            proof {
                lemma_tracing_drop_background(mask@, before, old_marks, pixels@, old_stack, seed);
            }
        } else {
            let ghost base = stack@.len() as int;
            let ghost rest = stack@;
            if x > 0 {
                stack.push((x - 1, y));
            }
            if x + 1 < width {
                stack.push((x + 1, y));
            }
            if y > 0 {
                stack.push((x, y - 1));
            }
            if y + 1 < height {
                stack.push((x, y + 1));
            }
            proof {
                assert(stack@.subrange(0, base) =~= rest);
                assert(pushed_around(mask@, stack@, base, pt(s))) by {
                    assert forall|q: (int, int)|
                        mask@.inside(q.0, q.1) && #[trigger] neighbours(pt(s), q) implies exists|
                        k: int,
                    |
                        base <= k < stack@.len() && pt(#[trigger] stack@[k]) == q by {
                        let left = if x > 0 { 1int } else { 0int };
                        let right = if x + 1 < width { 1int } else { 0int };
                        let up = if y > 0 { 1int } else { 0int };
                        if q.0 == x - 1 {
                            assert(pt(stack@[base]) == q);
                        } else if q.0 == x + 1 {
                            assert(pt(stack@[base + left]) == q);
                        } else if q.1 == y - 1 {
                            assert(pt(stack@[base + left + right]) == q);
                        } else {
                            assert(pt(stack@[base + left + right + up]) == q);
                        }
                    }
                }
                lemma_tracing_take(mask@, before, old_marks, pixels@, old_stack, seed, stack@);
                lemma_mark_one(old_marks, i as int);
            }
            marks.set(i, true);
            pixels.push(s);
        }
    }
    proof {
        assert(stack@ =~= Seq::<(u32, u32)>::empty());
        lemma_tracing_done(mask@, before, marks@, pixels@, seed);
    }
    pixels
}

/// A walk can be walked backwards.
pub proof fn lemma_connected_back(mask: GrayView, a: (int, int), b: (int, int))
    requires
        connected(mask, a, b),
    ensures
        connected(mask, b, a),
{
    let path = choose|path: Seq<(int, int)>| #[trigger]
        is_path(mask, path) && path[0] == a && path.last() == b;
    let n = path.len() as int;
    let back = Seq::new(path.len(), |i: int| path[n - 1 - i]);
    assert forall|i: int| 0 <= i < back.len() - 1 implies neighbours(
        #[trigger] back[i],
        back[i + 1],
    ) by {
        assert(neighbours(path[n - 2 - i], path[n - 2 - i + 1]));
    }
    assert(is_path(mask, back));
    assert(back[0] == b && back.last() == a);
}

/// Two walks that meet make one walk.
pub proof fn lemma_connected_on(mask: GrayView, a: (int, int), b: (int, int), c: (int, int))
    requires
        connected(mask, a, b),
        connected(mask, b, c),
    ensures
        connected(mask, a, c),
{
    let first = choose|path: Seq<(int, int)>| #[trigger]
        is_path(mask, path) && path[0] == a && path.last() == b;
    let second = choose|path: Seq<(int, int)>| #[trigger]
        is_path(mask, path) && path[0] == b && path.last() == c;
    let n = first.len() as int;
    let whole = first + second.subrange(1, second.len() as int);
    assert forall|i: int| 0 <= i < whole.len() implies foreground(mask, #[trigger] whole[i]) by {
        if i < n {
            assert(whole[i] == first[i]);
        } else {
            assert(whole[i] == second[i - n + 1]);
        }
    }
    assert forall|i: int| 0 <= i < whole.len() - 1 implies neighbours(
        #[trigger] whole[i],
        whole[i + 1],
    ) by {
        if i < n - 1 {
            assert(whole[i] == first[i] && whole[i + 1] == first[i + 1]);
        } else if i == n - 1 {
            assert(whole[i] == first[n - 1]);
            assert(whole[i + 1] == second[1]);
            assert(neighbours(second[0int], second[0int + 1]));
        } else {
            assert(whole[i] == second[i - n + 1]);
            assert(whole[i + 1] == second[i - n + 1 + 1]);
        }
    }
    assert(is_path(mask, whole));
    assert(whole[0] == a);
    if second.len() == 1 {
        assert(whole.last() == first[n - 1]);
    } else {
        assert(whole.last() == second[second.len() - 1]);
    }
}

/// The pixels connected to `p`.
pub open spec fn component(mask: GrayView, p: (int, int)) -> Set<(int, int)> {
    Set::new(|q: (int, int)| connected(mask, p, q))
}

/// The number of pixels connected to `p`.
pub open spec fn component_size(mask: GrayView, p: (int, int)) -> nat {
    component(mask, p).len()
}

/// Connected pixels have the same component.
pub proof fn lemma_same_component(mask: GrayView, a: (int, int), b: (int, int))
    requires
        connected(mask, a, b),
    ensures
        component(mask, a) == component(mask, b),
{
    lemma_connected_back(mask, a, b);
    assert forall|q: (int, int)| connected(mask, a, q) <==> connected(mask, b, q) by {
        if connected(mask, a, q) {
            lemma_connected_on(mask, b, a, q);
        }
        if connected(mask, b, q) {
            lemma_connected_on(mask, a, b, q);
        }
    }
    assert(component(mask, a) =~= component(mask, b));
}

/// A list of the pixels of a component has as many entries as the component
/// has pixels.
pub proof fn lemma_component_size(mask: GrayView, pixels: Seq<(u32, u32)>, seed: (int, int))
    requires
        is_component(mask, pixels, seed),
    ensures
        pixels.len() == component_size(mask, seed),
        component(mask, seed).finite(),
{
    let pts = Seq::new(pixels.len(), |k: int| pt(pixels[k]));
    assert(pts.no_duplicates()) by {
        assert forall|i: int, j: int|
            0 <= i < pts.len() && 0 <= j < pts.len() && i != j implies pts[i] != pts[j] by {
            if i < j {
                assert(pixels[i] != pixels[j]);
            } else {
                assert(pixels[j] != pixels[i]);
            }
        }
    }
    assert(pts.to_set() =~= component(mask, seed)) by {
        assert forall|q: (int, int)| pts.to_set().contains(q) <==> component(mask, seed).contains(
            q,
        ) by {
            if pts.contains(q) {
                let k = choose|k: int| 0 <= k < pts.len() && pts[k] == q;
                assert(connected(mask, seed, pt(pixels[k])));
            }
            if connected(mask, seed, q) {
                let k = choose|k: int| 0 <= k < pixels.len() && pt(#[trigger] pixels[k]) == q;
                assert(pts[k] == q);
            }
        }
    }
    pts.unique_seq_to_set();
    vstd::seq_lib::seq_to_set_is_finite(pts);
}

/// A walk over the components of a mask: the mask and the marks of the
/// components walked so far.
#[derive(Debug)]
pub struct ComponentScan {
    mask: GrayRaster,
    marks: Vec<bool>,
}

impl ComponentScan {
    #[verifier::type_invariant]
    spec fn inv(self) -> bool {
        settled(self.mask@, self.marks@)
    }

    /// What the mask holds.
    pub closed spec fn mask_view(&self) -> GrayView {
        self.mask@
    }

    /// The marks, row by row.
    pub closed spec fn marks_view(&self) -> Seq<bool> {
        self.marks@
    }

    /// The pixel at `p` belongs to a component walked before.
    pub open spec fn seen(&self, p: (int, int)) -> bool {
        marked(self.marks_view(), self.mask_view().width as int, p)
    }

    /// A walk over the components of `mask`, none of them walked yet.
    pub fn new(mask: GrayRaster) -> (scan: ComponentScan)
        ensures
            scan.mask_view() == mask@,
            forall|x: int, y: int| mask@.inside(x, y) ==> !scan.seen((x, y)),
    {
        let n = mask.as_raw().len();
        let marks: Vec<bool> = vec![false; n];
        proof {
            assert forall|x: int, y: int| mask@.inside(x, y) implies !marked(
                marks@,
                mask@.width as int,
                (x, y),
            ) by {
                lemma_offset_in_range(x, y, mask@.width as int, mask@.height as int);
            }
            assert forall|p: (int, int), q: (int, int)|
                mask@.inside(p.0, p.1) && marked(marks@, mask@.width as int, p) && foreground(
                    mask@,
                    q,
                ) && #[trigger] neighbours(p, q) implies marked(marks@, mask@.width as int, q) by {
                lemma_offset_in_range(p.0, p.1, mask@.width as int, mask@.height as int);
            }
        }
        ComponentScan { mask, marks }
    }

    /// The mask that is walked.
    pub fn mask(&self) -> (mask: &GrayRaster)
        ensures
            mask@ == self.mask_view(),
    {
        &self.mask
    }

    /// Walks the component of `(x, y)` if there is one that was not walked
    /// before, and lists its pixels.
    pub fn trace(self, x: u32, y: u32) -> (r: (ComponentScan, Option<Vec<(u32, u32)>>))
        ensures
            r.0.mask_view() == self.mask_view(),
            r.1 is Some <==> foreground(self.mask_view(), (x as int, y as int)) && !self.seen(
                (x as int, y as int),
            ),
            r.1 is None ==> r.0.marks_view() == self.marks_view(),
            r.1 matches Some(pixels) ==> is_component(
                self.mask_view(),
                pixels@,
                (x as int, y as int),
            ) && (forall|k: int|
                0 <= k < pixels@.len() ==> foreground(self.mask_view(), pt(#[trigger] pixels@[k])))
                && forall|u: int, v: int|
                self.mask_view().inside(u, v) ==> (#[trigger] r.0.seen((u, v)) <==> self.seen(
                    (u, v),
                ) || connected(self.mask_view(), (x as int, y as int), (u, v))),
    {
        proof {
            use_type_invariant(&self);
        }
        let mask = self.mask;
        let mut marks = self.marks;
        let (width, height) = mask.dimensions();
        let total = marks.len();
        if x >= width || y >= height {
            return (ComponentScan { mask, marks }, None);
        }
        let i = offset(x, y, width, height);
        if marks[i] || mask.get_pixel(x, y) == 0 {
            return (ComponentScan { mask, marks }, None);
        }
        let pixels = trace_component(&mask, x, y, &mut marks);
        (ComponentScan { mask, marks }, Some(pixels))
    }
}

} // verus!
