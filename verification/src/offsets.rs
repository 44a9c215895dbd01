use vstd::prelude::*;
use vstd::arithmetic::div_mod::{lemma_fundamental_div_mod_converse, lemma_mod_bound};
use crate::arith::lemma_div_at_least;
use crate::sorting::{lemma_sorted_same_elements, ranked_le, ranked_order, sort_ranked, Ranked};
use crate::types::{squared_magnitude, Color, ColorOffset};

verus! {

/// Number of colours in a cube of the given side.
pub open spec fn cube_size(cr: int) -> int {
    cr * cr * cr
}

/// The three coordinates of the `i`-th point of a cube of side `cr`, the
/// points read with the last coordinate running fastest.
pub open spec fn cube_coords(i: int, cr: int) -> (int, int, int) {
    (i / (cr * cr), (i / cr) % cr, i % cr)
}

/// Position of a point of the cube in that reading order.
pub open spec fn cube_position(a: int, b: int, c: int, cr: int) -> int {
    a * (cr * cr) + b * cr + c
}

/// The `i`-th colour of the cube.
pub open spec fn cube_color(i: int, cr: int) -> Color {
    let t = cube_coords(i, cr);
    Color { red: t.0 as u8, green: t.1 as u8, blue: t.2 as u8 }
}

/// All colours of the cube, the blue channel running fastest.
pub open spec fn color_cube(cr: int) -> Seq<Color> {
    Seq::new(cube_size(cr) as nat, |i: int| cube_color(i, cr))
}

/// A colour belongs to the cube of side `cr`.
pub open spec fn in_cube(c: Color, cr: int) -> bool {
    c.red < cr && c.green < cr && c.blue < cr
}

/// The `i`-th displacement with channels that are not negative.
pub open spec fn cube_offset(i: int, cr: int) -> ColorOffset {
    let t = cube_coords(i, cr);
    ColorOffset { red: t.0 as i16, green: t.1 as i16, blue: t.2 as i16 }
}

/// The displacements without negative channels, each with its squared
/// length as rank and its position in the cube to break ties.
pub open spec fn offset_ranks(cr: int) -> Seq<Ranked> {
    Seq::new(
        cube_size(cr) as nat,
        |i: int| (squared_magnitude(cube_offset(i, cr)) as u64, i as usize),
    )
}

/// One of the eight mirror images of a displacement: `j` says which
/// channels change sign.
pub open spec fn mirrored(o: ColorOffset, j: int) -> ColorOffset {
    let flip_red = j == 1 || j == 4 || j == 5 || j == 7;
    let flip_green = j == 2 || j == 4 || j == 6 || j == 7;
    let flip_blue = j == 3 || j == 5 || j == 6 || j == 7;
    ColorOffset {
        red: if flip_red { (-o.red) as i16 } else { o.red },
        green: if flip_green { (-o.green) as i16 } else { o.green },
        blue: if flip_blue { (-o.blue) as i16 } else { o.blue },
    }
}

/// The table of displacements for a cube of side `cr`: the displacements
/// without negative channels by ascending length, those of equal length in
/// their order in the cube, each followed by its mirror images.
pub open spec fn color_offset_table(cr: int) -> Seq<ColorOffset> {
    let order = offset_ranks(cr).sort_by(ranked_order());
    Seq::new(
        (8 * cube_size(cr)) as nat,
        |i: int| mirrored(cube_offset(order[i / 8].1 as int, cr), i % 8),
    )
}

/// The sizes of a cube of side up to 256.
pub proof fn lemma_cube_size_bound(cr: int)
    requires
        0 <= cr <= 256,
    ensures
        0 <= cr * cr <= 65536,
        0 <= cube_size(cr) <= 16777216,
        cr >= 1 ==> cube_size(cr) >= 1,
        cube_size(cr) == cr * (cr * cr),
{
    assert(0 <= cr * cr <= 65536) by (nonlinear_arith)
        requires
            0 <= cr <= 256,
    ;
    assert(0 <= cr * cr * cr <= 16777216) by (nonlinear_arith)
        requires
            0 <= cr <= 256,
            0 <= cr * cr <= 65536,
    ;
    assert(cr >= 1 ==> cr * cr * cr >= 1) by (nonlinear_arith)
        requires
            0 <= cr,
    ;
    assert(cr * cr * cr == cr * (cr * cr)) by (nonlinear_arith);
}

/// The coordinates of a point of the cube are below its side.
pub proof fn lemma_cube_coords_bounds(i: int, cr: int)
    requires
        1 <= cr <= 256,
        0 <= i < cube_size(cr),
    ensures
        0 <= cube_coords(i, cr).0 < cr,
        0 <= cube_coords(i, cr).1 < cr,
        0 <= cube_coords(i, cr).2 < cr,
{
    lemma_cube_size_bound(cr);
    assert(cr * cr >= 1) by (nonlinear_arith)
        requires
            cr >= 1,
    ;
    lemma_div_at_least(i, cr * cr, cr);
    lemma_div_at_least(i, cr * cr, 0);
    lemma_div_at_least(i, cr, 0);
    lemma_mod_bound(i / cr, cr);
    lemma_mod_bound(i, cr);
}

/// Reading the coordinates of a position gives back the point.
pub proof fn lemma_cube_position(a: int, b: int, c: int, cr: int)
    requires
        1 <= cr <= 256,
        0 <= a < cr,
        0 <= b < cr,
        0 <= c < cr,
    ensures
        0 <= cube_position(a, b, c, cr) < cube_size(cr),
        cube_coords(cube_position(a, b, c, cr), cr) == (a, b, c),
{
    let i = cube_position(a, b, c, cr);
    let sq = cr * cr;
    assert(0 <= b * cr + c < sq) by (nonlinear_arith)
        requires
            0 <= b < cr,
            0 <= c < cr,
            sq == cr * cr,
    ;
    assert(0 <= a * sq && a * sq + sq <= cr * cr * cr) by (nonlinear_arith)
        requires
            0 <= a < cr,
            sq == cr * cr,
    ;
    assert(sq * a == a * sq) by (nonlinear_arith);
    lemma_fundamental_div_mod_converse(i, sq, a, b * cr + c);
    assert(i == cr * (a * cr + b) + c) by (nonlinear_arith)
        requires
            i == a * (cr * cr) + b * cr + c,
    ;
    assert(0 <= a * cr + b) by (nonlinear_arith)
        requires
            0 <= a,
            0 <= b,
            cr >= 1,
    ;
    lemma_fundamental_div_mod_converse(i, cr, a * cr + b, c);
    assert(cr * a == a * cr) by (nonlinear_arith);
    lemma_fundamental_div_mod_converse(a * cr + b, cr, a, b);
}

/// The coordinates of a point of the cube.
fn coords_of(i: usize, cr: usize) -> (t: (usize, usize, usize))
    requires
        1 <= cr <= 256,
        i < cube_size(cr as int),
    ensures
        (t.0 as int, t.1 as int, t.2 as int) == cube_coords(i as int, cr as int),
        t.0 < cr,
        t.1 < cr,
        t.2 < cr,
{
    proof {
        lemma_cube_size_bound(cr as int);
        lemma_cube_coords_bounds(i as int, cr as int);
    }
    (i / (cr * cr), (i / cr) % cr, i % cr)
}

/// All colours of the cube of side `color_range`, the blue channel running
/// fastest.
pub fn all_colors(color_range: usize) -> (colors: Vec<Color>)
    requires
        color_range <= 256,
    ensures
        colors@ == color_cube(color_range as int),
{
    proof {
        lemma_cube_size_bound(color_range as int);
    }
    let total: usize = color_range * color_range * color_range;
    let mut colors: Vec<Color> = Vec::new();
    let mut i: usize = 0;
    while i < total
        invariant
            color_range <= 256,
            total == cube_size(color_range as int),
            i <= total,
            colors@.len() == i,
            forall|x: int| 0 <= x < i ==> colors@[x] == cube_color(x, color_range as int),
        decreases total - i,
    {
        let t = coords_of(i, color_range);
        colors.push(Color { red: t.0 as u8, green: t.1 as u8, blue: t.2 as u8 });
        i += 1;
    }
    proof {
        assert(colors@ =~= color_cube(color_range as int));
    }
    colors
}

/// A mirror image of a displacement without negative channels.
fn mirror(o: ColorOffset, j: u8) -> (r: ColorOffset)
    requires
        0 <= o.red <= 255,
        0 <= o.green <= 255,
        0 <= o.blue <= 255,
        j < 8,
    ensures
        r == mirrored(o, j as int),
{
    let flip_red = j == 1 || j == 4 || j == 5 || j == 7;
    let flip_green = j == 2 || j == 4 || j == 6 || j == 7;
    let flip_blue = j == 3 || j == 5 || j == 6 || j == 7;
    ColorOffset {
        red: if flip_red { -o.red } else { o.red },
        green: if flip_green { -o.green } else { o.green },
        blue: if flip_blue { -o.blue } else { o.blue },
    }
}

/// The table of displacements for a cube of side `color_range`, by
/// ascending length.
pub fn color_offsets(color_range: usize) -> (table: Vec<ColorOffset>)
    requires
        color_range <= 256,
    ensures
        table@ == color_offset_table(color_range as int),
{
    let ghost cr = color_range as int;
    proof {
        lemma_cube_size_bound(cr);
    }
    let total: usize = color_range * color_range * color_range;
    let mut ranks: Vec<Ranked> = Vec::new();
    let mut i: usize = 0;
    while i < total
        invariant
            color_range <= 256,
            cr == color_range,
            total == cube_size(cr),
            i <= total,
            ranks@.len() == i,
            forall|x: int| 0 <= x < i ==> ranks@[x] == offset_ranks(cr)[x],
        decreases total - i,
    {
        let t = coords_of(i, color_range);
        let a = t.0 as u64;
        let b = t.1 as u64;
        let c = t.2 as u64;
        proof {
            crate::arith::lemma_square_bound(a as int, 255);
            crate::arith::lemma_square_bound(b as int, 255);
            crate::arith::lemma_square_bound(c as int, 255);
        }
        ranks.push((a * a + b * b + c * c, i));
        i += 1;
    }
    proof {
        assert(ranks@ =~= offset_ranks(cr));
    }
    let order = sort_ranked(&ranks);
    let mut table: Vec<ColorOffset> = Vec::new();
    let mut x: usize = 0;
    while x < total
        invariant
            color_range <= 256,
            cr == color_range,
            total == cube_size(cr),
            total <= 16777216,
            order@ == offset_ranks(cr).sort_by(ranked_order()),
            order@.len() == total,
            x <= total,
            table@.len() == 8 * x,
            forall|y: int|
                0 <= y < 8 * x ==> table@[y] == mirrored(
                    cube_offset(order@[y / 8].1 as int, cr),
                    y % 8,
                ),
        decreases total - x,
    {
        let idx = order[x].1;
        proof {
            lemma_sorted_same_elements(offset_ranks(cr), order@[x as int]);
            assert(order@.contains(order@[x as int]));
            let y = choose|y: int|
                0 <= y < offset_ranks(cr).len() && offset_ranks(cr)[y] == order@[x as int];
            assert(idx == y);
        }
        let t = coords_of(idx, color_range);
        let o = ColorOffset { red: t.0 as i16, green: t.1 as i16, blue: t.2 as i16 };
        let mut j: u8 = 0;
        while j < 8
            invariant
                j <= 8,
                x < total,
                total <= 16777216,
                0 <= o.red <= 255,
                0 <= o.green <= 255,
                0 <= o.blue <= 255,
                o == cube_offset(order@[x as int].1 as int, cr),
                table@.len() == 8 * x + j,
                forall|y: int|
                    0 <= y < 8 * x + j ==> table@[y] == mirrored(
                        cube_offset(order@[y / 8].1 as int, cr),
                        y % 8,
                    ),
            decreases 8 - j,
        {
            table.push(mirror(o, j));
            j += 1;
        }
        x += 1;
    }
    proof {
        assert(table@ =~= color_offset_table(cr));
    }
    table
}

/// A mirror image is as long as the displacement it mirrors.
pub proof fn lemma_mirrored_magnitude(o: ColorOffset, j: int)
    requires
        0 <= o.red <= 255,
        0 <= o.green <= 255,
        0 <= o.blue <= 255,
    ensures
        squared_magnitude(mirrored(o, j)) == squared_magnitude(o),
{
    let r = o.red as int;
    let g = o.green as int;
    let b = o.blue as int;
    assert((-r) * (-r) == r * r) by (nonlinear_arith);
    assert((-g) * (-g) == g * g) by (nonlinear_arith);
    assert((-b) * (-b) == b * b) by (nonlinear_arith);
}

/// What the table holds at each position, and that it is ordered by
/// ascending length.
pub proof fn lemma_offset_table_ascending(cr: int, i: int, j: int)
    requires
        1 <= cr <= 256,
        0 <= i <= j < 8 * cube_size(cr),
    ensures
        color_offset_table(cr).len() == 8 * cube_size(cr),
        squared_magnitude(color_offset_table(cr)[i]) <= squared_magnitude(
            color_offset_table(cr)[j],
        ),
{
    lemma_cube_size_bound(cr);
    let ranks = offset_ranks(cr);
    let order = ranks.sort_by(ranked_order());
    lemma_sorted_same_elements(ranks, order[i / 8]);
    lemma_sorted_same_elements(ranks, order[j / 8]);
    assert(order.contains(order[i / 8]));
    assert(order.contains(order[j / 8]));
    let yi = choose|y: int| 0 <= y < ranks.len() && ranks[y] == order[i / 8];
    let yj = choose|y: int| 0 <= y < ranks.len() && ranks[y] == order[j / 8];
    lemma_cube_coords_bounds(yi, cr);
    lemma_cube_coords_bounds(yj, cr);
    let oi = cube_offset(yi, cr);
    let oj = cube_offset(yj, cr);
    lemma_mirrored_magnitude(oi, i % 8);
    lemma_mirrored_magnitude(oj, j % 8);
    crate::arith::lemma_square_bound(oi.red as int, 255);
    crate::arith::lemma_square_bound(oi.green as int, 255);
    crate::arith::lemma_square_bound(oi.blue as int, 255);
    crate::arith::lemma_square_bound(oj.red as int, 255);
    crate::arith::lemma_square_bound(oj.green as int, 255);
    crate::arith::lemma_square_bound(oj.blue as int, 255);
    if i / 8 < j / 8 {
        assert(ranked_order()(order[i / 8], order[j / 8]));
        assert(ranked_le(order[i / 8], order[j / 8]));
    }
}

/// The table holds every displacement between two colours of the cube.
pub proof fn lemma_offset_table_complete(cr: int, o: ColorOffset) -> (i: int)
    requires
        1 <= cr <= 256,
        -cr < o.red < cr,
        -cr < o.green < cr,
        -cr < o.blue < cr,
    ensures
        0 <= i < color_offset_table(cr).len(),
        color_offset_table(cr)[i] == o,
{
    lemma_cube_size_bound(cr);
    let a: int = if o.red < 0 { -o.red } else { o.red as int };
    let b: int = if o.green < 0 { -o.green } else { o.green as int };
    let c: int = if o.blue < 0 { -o.blue } else { o.blue as int };
    let pos = cube_position(a, b, c, cr);
    lemma_cube_position(a, b, c, cr);
    let ranks = offset_ranks(cr);
    let order = ranks.sort_by(ranked_order());
    lemma_sorted_same_elements(ranks, ranks[pos]);
    assert(ranks.contains(ranks[pos]));
    let x = choose|x: int| 0 <= x < order.len() && order[x] == ranks[pos];
    assert(order[x].1 == pos);
    let fr = o.red < 0;
    let fg = o.green < 0;
    let fb = o.blue < 0;
    let j: int = if fr && fg && fb {
        7
    } else if fg && fb {
        6
    } else if fr && fb {
        5
    } else if fr && fg {
        4
    } else if fb {
        3
    } else if fg {
        2
    } else if fr {
        1
    } else {
        0
    };
    let i = 8 * x + j;
    assert(i / 8 == x && i % 8 == j);
    assert(color_offset_table(cr)[i] == mirrored(cube_offset(pos, cr), j));
    i
}

} // verus!
