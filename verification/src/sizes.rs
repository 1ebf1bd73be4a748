//! The dimensions of a board: which of the known layouts fits the area that
//! the terminal offers.

use vstd::prelude::*;
use crate::difficulty::Difficulty;

verus! {

/// A board of `w` by `h` cells, drawn with three characters a cell and its
/// border, and with room beside it, fits an area of `max_w` by `max_h`.
pub open spec fn fits(w: int, h: int, max_w: int, max_h: int) -> bool {
    w * 3 + 12 <= max_w && h * 3 + 2 <= max_h
}

/// The first of the layouts that fits, each tried as it stands and then
/// turned by a quarter; `(0, 0)` where none does.
pub open spec fn first_fit(layouts: Seq<(usize, usize)>, max_w: int, max_h: int) -> (usize, usize)
    decreases layouts.len(),
{
    if layouts.len() == 0 {
        (0, 0)
    } else if fits(layouts[0].0 as int, layouts[0].1 as int, max_w, max_h) {
        layouts[0]
    } else if fits(layouts[0].1 as int, layouts[0].0 as int, max_w, max_h) {
        (layouts[0].1, layouts[0].0)
    } else {
        first_fit(layouts.drop_first(), max_w, max_h)
    }
}

/// The layouts of each preset, in the order of preference.
pub open spec fn layouts_of(difficulty: Difficulty) -> Seq<(usize, usize)> {
    match difficulty {
        Difficulty::Easy => seq![(10usize, 8usize)],
        Difficulty::Medium => seq![(18usize, 14usize), (21, 12), (28, 9), (36, 7)],
        Difficulty::Hard => seq![(20usize, 24usize), (16, 30), (15, 32), (12, 40), (10, 48), (8, 60)],
    }
}

/// The dimensions of a board of the preset in the given area; `(0, 0)`
/// where the area is too small for it.
pub open spec fn size_for(difficulty: Difficulty, max_render_size: (u16, u16)) -> (usize, usize) {
    first_fit(layouts_of(difficulty), max_render_size.0 as int, max_render_size.1 as int)
}

/// The area is large enough to play the preset in: the smallest board fits,
/// and so does a board of the preset.
pub open spec fn playable(difficulty: Difficulty, max_render_size: (u16, u16)) -> bool {
    &&& size_for(Difficulty::Easy, max_render_size) != (0usize, 0usize)
    &&& size_for(difficulty, max_render_size) != (0usize, 0usize)
}

/// `(w, h)` is one of the layouts of the preset, as it stands or turned.
pub open spec fn is_layout(difficulty: Difficulty, w: int, h: int) -> bool {
    exists|k: int|
        0 <= k < layouts_of(difficulty).len() && {
            let l = #[trigger] layouts_of(difficulty)[k];
            (w == l.0 && h == l.1) || (w == l.1 && h == l.0)
        }
}

pub fn check_compatible(board_size: (usize, usize), max_render_size: (u16, u16)) -> (fitting: bool)
    ensures
        fitting == fits(
            board_size.0 as int,
            board_size.1 as int,
            max_render_size.0 as int,
            max_render_size.1 as int,
        ),
{
    let max_width = max_render_size.0 as usize;
    let max_height = max_render_size.1 as usize;
    max_width >= 12 && board_size.0 <= (max_width - 12) / 3 && max_height >= 2 && board_size.1 <= (
    max_height - 2) / 3
}

/// Tries the layouts from `from` on and returns the first that fits.
fn pick(layouts: &[(usize, usize)], from: usize, max_render_size: (u16, u16)) -> (size: (usize, usize))
    requires
        from <= layouts@.len(),
    ensures
        size == first_fit(
            layouts@.subrange(from as int, layouts@.len() as int),
            max_render_size.0 as int,
            max_render_size.1 as int,
        ),
    decreases layouts@.len() - from,
{
    let ghost rest = layouts@.subrange(from as int, layouts@.len() as int);
    if from == layouts.len() {
        (0, 0)
    } else {
        let pair = layouts[from];
        assert(rest[0] == pair);
        assert(rest.drop_first() =~= layouts@.subrange(from + 1, layouts@.len() as int));
        if check_compatible(pair, max_render_size) {
            pair
        } else if check_compatible((pair.1, pair.0), max_render_size) {
            (pair.1, pair.0)
        } else {
            pick(layouts, from + 1, max_render_size)
        }
    }
}

/// The dimensions of the boards of the three presets in the given area, in
/// the order of the presets. The area has to hold the smallest board.
pub fn get_compatible_sizes(max_render_size: (u16, u16)) -> (sizes: [(usize, usize); 3])
    requires
        size_for(Difficulty::Easy, max_render_size) != (0usize, 0usize),
    ensures
        sizes[0] == size_for(Difficulty::Easy, max_render_size),
        sizes[1] == size_for(Difficulty::Medium, max_render_size),
        sizes[2] == size_for(Difficulty::Hard, max_render_size),
{
    let easy: [(usize, usize); 1] = [(10, 8)];
    let medium: [(usize, usize); 4] = [(18, 14), (21, 12), (28, 9), (36, 7)];
    let hard: [(usize, usize); 6] = [(20, 24), (16, 30), (15, 32), (12, 40), (10, 48), (8, 60)];
    assert(easy@ =~= layouts_of(Difficulty::Easy));
    assert(medium@ =~= layouts_of(Difficulty::Medium));
    assert(hard@ =~= layouts_of(Difficulty::Hard));
    assert(easy@.subrange(0, 1) =~= easy@);
    assert(medium@.subrange(0, 4) =~= medium@);
    assert(hard@.subrange(0, 6) =~= hard@);
    [
        pick(easy.as_slice(), 0, max_render_size),
        pick(medium.as_slice(), 0, max_render_size),
        pick(hard.as_slice(), 0, max_render_size),
    ]
}

/// Whether the area is large enough to play the preset in.
pub fn is_playable(difficulty: Difficulty, max_render_size: (u16, u16)) -> (yes: bool)
    ensures
        yes == playable(difficulty, max_render_size),
{
    let easy: [(usize, usize); 1] = [(10, 8)];
    assert(easy@ =~= layouts_of(Difficulty::Easy));
    assert(easy@.subrange(0, 1) =~= easy@);
    let smallest = pick(easy.as_slice(), 0, max_render_size);
    if smallest.0 == 0 && smallest.1 == 0 {
        false
    } else {
        let sizes = get_compatible_sizes(max_render_size);
        let size = sizes[difficulty.index()];
        !(size.0 == 0 && size.1 == 0)
    }
}

/// What `first_fit` returns is `(0, 0)` or one of the layouts, as it stands
/// or turned.
proof fn lemma_first_fit(layouts: Seq<(usize, usize)>, max_w: int, max_h: int)
    ensures
        ({
            let size = first_fit(layouts, max_w, max_h);
            size == (0usize, 0usize) || exists|k: int|
                0 <= k < layouts.len() && (size == #[trigger] layouts[k] || size == (
                    layouts[k].1,
                    layouts[k].0,
                ))
        }),
    decreases layouts.len(),
{
    let size = first_fit(layouts, max_w, max_h);
    if layouts.len() == 0 {
    } else if fits(layouts[0].0 as int, layouts[0].1 as int, max_w, max_h) {
        assert(size == layouts[0]);
    } else if fits(layouts[0].1 as int, layouts[0].0 as int, max_w, max_h) {
        assert(size == (layouts[0].1, layouts[0].0));
    } else {
        let rest = layouts.drop_first();
        lemma_first_fit(rest, max_w, max_h);
        if size != (0usize, 0usize) {
            let k = choose|k: int|
                0 <= k < rest.len() && (size == #[trigger] rest[k] || size == (rest[k].1, rest[k].0));
            assert(rest[k] == layouts[k + 1]);
        }
    }
}

/// A layout of a preset has at most 60 cells a side and as many cells as
/// the preset has, which leaves room for its mines beside any cell and its
/// neighbours.
pub proof fn lemma_layout_bounds(difficulty: Difficulty, w: int, h: int)
    requires
        is_layout(difficulty, w, h),
    ensures
        1 <= w <= 60,
        1 <= h <= 60,
        w * h == difficulty.area(),
        difficulty.mine_total() + 9 < w * h,
{
    let l = layouts_of(difficulty);
    let k = choose|k: int|
        0 <= k < layouts_of(difficulty).len() && {
            let l = #[trigger] layouts_of(difficulty)[k];
            (w == l.0 && h == l.1) || (w == l.1 && h == l.0)
        };
    assert(w * h == l[k].0 * l[k].1) by (nonlinear_arith)
        requires
            (w == l[k].0 && h == l[k].1) || (w == l[k].1 && h == l[k].0),
    ;
    match difficulty {
        Difficulty::Easy => {
            assert(l[0] == (10usize, 8usize));
        },
        Difficulty::Medium => {
            assert(l[0] == (18usize, 14usize) && l[1] == (21usize, 12usize) && l[2] == (28usize, 9usize)
                && l[3] == (36usize, 7usize));
            assert(l[0].0 * l[0].1 == 252 && l[1].0 * l[1].1 == 252 && l[2].0 * l[2].1 == 252 && l[3].0
                * l[3].1 == 252);
            assert(k == 0 || k == 1 || k == 2 || k == 3);
        },
        Difficulty::Hard => {
            assert(l[0] == (20usize, 24usize) && l[1] == (16usize, 30usize) && l[2] == (15usize, 32usize)
                && l[3] == (12usize, 40usize) && l[4] == (10usize, 48usize) && l[5] == (8usize, 60usize));
            assert(l[0].0 * l[0].1 == 480 && l[1].0 * l[1].1 == 480 && l[2].0 * l[2].1 == 480 && l[3].0
                * l[3].1 == 480 && l[4].0 * l[4].1 == 480 && l[5].0 * l[5].1 == 480);
            assert(k == 0 || k == 1 || k == 2 || k == 3 || k == 4 || k == 5);
        },
    }
}

/// The dimensions that `size_for` gives are `(0, 0)` or a layout of the
/// preset: at most 60 cells a side, and as many cells as the preset has.
pub proof fn lemma_size_is_layout(difficulty: Difficulty, max_render_size: (u16, u16))
    ensures
        ({
            let size = size_for(difficulty, max_render_size);
            size == (0usize, 0usize) || (is_layout(difficulty, size.0 as int, size.1 as int) && 1 <= size.0
                <= 60 && 1 <= size.1 <= 60 && size.0 * size.1 == difficulty.area())
        }),
{
    let l = layouts_of(difficulty);
    let size = size_for(difficulty, max_render_size);
    lemma_first_fit(l, max_render_size.0 as int, max_render_size.1 as int);
    if size != (0usize, 0usize) {
        let k = choose|k: int| 0 <= k < l.len() && (size == #[trigger] l[k] || size == (l[k].1, l[k].0));
        assert(layouts_of(difficulty)[k] == l[k]);
        assert(is_layout(difficulty, size.0 as int, size.1 as int));
        lemma_layout_bounds(difficulty, size.0 as int, size.1 as int);
    }
}

} // verus!
