use vstd::prelude::*;
use vstd::arithmetic::div_mod::{lemma_fundamental_div_mod, lemma_fundamental_div_mod_converse, lemma_mod_bound};
use crate::band::{Band, band_contains, band_seq, lemma_band_seq_covers, lemma_band_seq_within};
use crate::field::{
    Rgb, full_band, horizontal_band, painted, pixel_index, shifted_cols, shifted_rows,
    vertical_band,
};

verus! {

/// One pan of the view: by rows (negative: up) or by columns (negative: left).
#[derive(Clone, Copy, Debug, PartialEq, Eq, Structural)]
pub enum Pan {
    Vertical(i64),
    Horizontal(i64),
}

/// A scene gives the colour of every pixel of an unbounded raster, by row
/// and column. Panning moves a window over it; the window's top-left pixel
/// is its origin.
pub type Scene = spec_fn(int, int) -> Rgb;

/// `s` is the `width` by `height` window of `scene` whose top-left pixel is
/// `(row0, col0)`.
pub open spec fn shows(width: u32, height: u32, s: Seq<Rgb>, scene: Scene, row0: int, col0: int) -> bool {
    &&& s.len() == width * height
    &&& forall|i: int|
        0 <= i < s.len() ==> #[trigger] s[i] == scene(row0 + i / (width as int), col0 + i % (width as int))
}

/// The colours that the scene gives the listed pixels of the window at `(row0, col0)`.
pub open spec fn scene_colors(px: Seq<(u32, u32)>, scene: Scene, row0: int, col0: int) -> Seq<Rgb> {
    px.map_values(|p: (u32, u32)| scene(row0 + p.0, col0 + p.1))
}

/// `s` with the pixels of band `b` painted from the window at `(row0, col0)`,
/// in the band's visiting order.
pub open spec fn repainted(width: u32, s: Seq<Rgb>, b: Band, scene: Scene, row0: int, col0: int) -> Seq<Rgb> {
    painted(width as int, s, band_seq(b), scene_colors(band_seq(b), scene, row0, col0))
}

/// A full recompute: every pixel painted from the window at `(row0, col0)`.
pub open spec fn full_repaint(width: u32, height: u32, s: Seq<Rgb>, scene: Scene, row0: int, col0: int) -> Seq<Rgb> {
    repainted(width, s, full_band(width, height), scene, row0, col0)
}

/// The incremental vertical pan: rows that stay in view are moved and the
/// exposed band is painted from the moved window.
pub open spec fn pan_vertical_repaint(
    width: u32,
    height: u32,
    s: Seq<Rgb>,
    scene: Scene,
    row0: int,
    col0: int,
    offset: i64,
) -> Seq<Rgb> {
    repainted(
        width,
        shifted_rows(width as int, s, offset as int),
        vertical_band(width, height, offset),
        scene,
        row0 + offset,
        col0,
    )
}

/// The incremental horizontal pan: columns that stay in view are moved and
/// the exposed band is painted from the moved window.
pub open spec fn pan_horizontal_repaint(
    width: u32,
    height: u32,
    s: Seq<Rgb>,
    scene: Scene,
    row0: int,
    col0: int,
    offset: i64,
) -> Seq<Rgb> {
    repainted(
        width,
        shifted_cols(width as int, s, offset as int),
        horizontal_band(width, height, offset),
        scene,
        row0,
        col0 + offset,
    )
}

/// Index `i` is pixel `(q, c)` exactly when `q` and `c` are its row and column.
proof fn lemma_index_split(width: int, i: int, q: int, c: int)
    requires
        width > 0,
        0 <= c < width,
    ensures
        i == pixel_index(width, q, c) <==> (q == i / width && c == i % width),
{
    if i == pixel_index(width, q, c) {
        lemma_fundamental_div_mod_converse(i, width, q, c);
    }
    if q == i / width && c == i % width {
        lemma_fundamental_div_mod(i, width);
    }
}

/// Row `q` is in the window of `height` rows exactly when its pixels are.
proof fn lemma_row_in_window(width: int, height: int, q: int, c: int)
    requires
        width > 0,
        height > 0,
        0 <= c < width,
    ensures
        (0 <= q * width + c < width * height) <==> (0 <= q < height),
{
    if q < 0 {
        assert(q * width + c < 0) by (nonlinear_arith)
            requires q < 0, width > 0, c < width;
    } else if q >= height {
        assert(q * width + c >= width * height) by (nonlinear_arith)
            requires q >= height, width > 0, c >= 0;
    } else {
        assert(q * width + c < width * height) by (nonlinear_arith)
            requires q < height, width > 0, c < width;
        assert(q * width >= 0) by (nonlinear_arith)
            requires q >= 0, width > 0;
    }
}

/// Painting pixels with colours taken from a scene: a listed pixel ends with
/// its scene colour, whichever listing came last, and the others keep theirs.
proof fn lemma_painted_from_scene(
    width: u32,
    height: u32,
    s: Seq<Rgb>,
    px: Seq<(u32, u32)>,
    cs: Seq<Rgb>,
    scene: Scene,
    row0: int,
    col0: int,
)
    requires
        width > 0,
        s.len() == width * height,
        px.len() <= cs.len(),
        forall|k: int| 0 <= k < px.len() ==> (#[trigger] px[k]).0 < height && px[k].1 < width,
        forall|k: int| 0 <= k < px.len() ==> cs[k] == scene(row0 + px[k].0, col0 + px[k].1),
    ensures
        painted(width as int, s, px, cs).len() == s.len(),
        forall|i: int|
            0 <= i < s.len() ==> #[trigger] painted(width as int, s, px, cs)[i] == (if exists|k: int|
                0 <= k < px.len() && px[k].0 == i / (width as int) && px[k].1 == i % (width as int) {
                scene(row0 + i / (width as int), col0 + i % (width as int))
            } else {
                s[i]
            }),
    decreases px.len(),
{
    let w = width as int;
    if px.len() > 0 {
        let prev = px.drop_last();
        let last = px.len() - 1;
        lemma_painted_from_scene(width, height, s, prev, cs, scene, row0, col0);
        let j = pixel_index(w, px[last].0 as int, px[last].1 as int);
        lemma_row_in_window(w, height as int, px[last].0 as int, px[last].1 as int);
        assert forall|i: int| 0 <= i < s.len() implies #[trigger] painted(w, s, px, cs)[i] == (
        if exists|k: int| 0 <= k < px.len() && px[k].0 == i / w && px[k].1 == i % w {
            scene(row0 + i / w, col0 + i % w)
        } else {
            s[i]
        }) by {
            lemma_index_split(w, i, px[last].0 as int, px[last].1 as int);
            if i == j {
                assert(0 <= last < px.len() && px[last].0 == i / w && px[last].1 == i % w);
            } else {
                if exists|k: int| 0 <= k < px.len() && px[k].0 == i / w && px[k].1 == i % w {
                    let k = choose|k: int| 0 <= k < px.len() && px[k].0 == i / w && px[k].1 == i % w;
                    assert(k != last);
                    assert(prev[k] == px[k]);
                }
                if exists|k: int| 0 <= k < prev.len() && prev[k].0 == i / w && prev[k].1 == i % w {
                    let k = choose|k: int| 0 <= k < prev.len() && prev[k].0 == i / w && prev[k].1 == i % w;
                    assert(px[k] == prev[k]);
                }
            }
        }
    }
}

/// Repainting a band from a scene makes the field show the scene, provided
/// each pixel outside the band already shows it.
proof fn lemma_repainted_shows(
    width: u32,
    height: u32,
    s: Seq<Rgb>,
    b: Band,
    scene: Scene,
    row0: int,
    col0: int,
)
    requires
        width > 0,
        s.len() == width * height,
        b.row_start <= height && b.row_end <= height,
        b.col_start <= width && b.col_end <= width,
        forall|i: int|
            0 <= i < s.len() && !band_contains(b, i / (width as int), i % (width as int)) ==> #[trigger] s[i]
                == scene(row0 + i / (width as int), col0 + i % (width as int)),
    ensures
        shows(width, height, repainted(width, s, b, scene, row0, col0), scene, row0, col0),
{
    let px = band_seq(b);
    let cs = scene_colors(px, scene, row0, col0);
    lemma_band_seq_within(b, width, height);
    lemma_painted_from_scene(width, height, s, px, cs, scene, row0, col0);
    let t = repainted(width, s, b, scene, row0, col0);
    let w = width as int;
    assert forall|i: int| 0 <= i < t.len() implies #[trigger] t[i] == scene(row0 + i / w, col0 + i % w) by {
        lemma_band_seq_covers(b, i / w, i % w);
        assert(painted(w, s, px, cs)[i] == t[i]);
        if !band_contains(b, i / w, i % w) {
            assert(s[i] == scene(row0 + i / w, col0 + i % w));
        }
    }
}

/// Two fields that show the same window of a scene are equal.
proof fn lemma_shows_unique(width: u32, height: u32, s: Seq<Rgb>, t: Seq<Rgb>, scene: Scene, row0: int, col0: int)
    requires
        shows(width, height, s, scene, row0, col0),
        shows(width, height, t, scene, row0, col0),
    ensures
        s == t,
{
    assert(s =~= t);
}

/// A full recompute makes any field of the right size show the window.
pub proof fn lemma_full_repaint_shows(width: u32, height: u32, s: Seq<Rgb>, scene: Scene, row0: int, col0: int)
    requires
        width > 0,
        height > 0,
        s.len() == width * height,
    ensures
        shows(width, height, full_repaint(width, height, s, scene, row0, col0), scene, row0, col0),
{
    let w = width as int;
    assert forall|i: int|
        0 <= i < s.len() && !band_contains(full_band(width, height), i / w, i % w) implies #[trigger] s[i]
            == scene(row0 + i / w, col0 + i % w) by {
        lemma_row_col_of(w, height as int, i);
    }
    lemma_repainted_shows(width, height, s, full_band(width, height), scene, row0, col0);
}


/// Row and column of index `i` in a window of positive width.
proof fn lemma_row_col_of(width: int, height: int, i: int)
    requires
        width > 0,
        height > 0,
        0 <= i < width * height,
    ensures
        i == pixel_index(width, i / width, i % width),
        0 <= i / width < height,
        0 <= i % width < width,
{
    lemma_fundamental_div_mod(i, width);
    lemma_mod_bound(i, width);
    assert(width * (i / width) == (i / width) * width) by (nonlinear_arith);
    lemma_row_in_window(width, height, i / width, i % width);
}

/// A vertical pan done incrementally (moving the rows that stay in view,
/// painting only the exposed band) gives the same field as a full recompute
/// from the moved window, for any offset.
pub proof fn lemma_pan_vertical_matches_full_repaint(
    width: u32,
    height: u32,
    s: Seq<Rgb>,
    scene: Scene,
    row0: int,
    col0: int,
    offset: i64,
)
    requires
        width > 0,
        height > 0,
        shows(width, height, s, scene, row0, col0),
    ensures
        shows(
            width,
            height,
            pan_vertical_repaint(width, height, s, scene, row0, col0, offset),
            scene,
            row0 + offset,
            col0,
        ),
        pan_vertical_repaint(width, height, s, scene, row0, col0, offset) == full_repaint(
            width,
            height,
            s,
            scene,
            row0 + offset,
            col0,
        ),
{
    let w = width as int;
    let h = height as int;
    let t = shifted_rows(w, s, offset as int);
    let b = vertical_band(width, height, offset);
    assert forall|i: int|
        0 <= i < t.len() && !band_contains(b, i / w, i % w) implies #[trigger] t[i] == scene(
            row0 + offset + i / w,
            col0 + i % w,
        ) by {
        lemma_row_col_of(w, h, i);
        let r = i / w;
        let c = i % w;
        let j = i + offset * w;
        assert(j == (r + offset) * w + c) by (nonlinear_arith)
            requires i == r * w + c, j == i + offset * w;
        lemma_row_in_window(w, h, r + offset, c);
        lemma_index_split(w, j, r + offset, c);
    }
    lemma_repainted_shows(width, height, t, b, scene, row0 + offset, col0);
    lemma_full_repaint_shows(width, height, s, scene, row0 + offset, col0);
    lemma_shows_unique(
        width,
        height,
        pan_vertical_repaint(width, height, s, scene, row0, col0, offset),
        full_repaint(width, height, s, scene, row0 + offset, col0),
        scene,
        row0 + offset,
        col0,
    );
}

/// A horizontal pan done incrementally (moving the columns that stay in
/// view, painting only the exposed band) gives the same field as a full
/// recompute from the moved window, for any offset.
pub proof fn lemma_pan_horizontal_matches_full_repaint(
    width: u32,
    height: u32,
    s: Seq<Rgb>,
    scene: Scene,
    row0: int,
    col0: int,
    offset: i64,
)
    requires
        width > 0,
        height > 0,
        shows(width, height, s, scene, row0, col0),
    ensures
        shows(
            width,
            height,
            pan_horizontal_repaint(width, height, s, scene, row0, col0, offset),
            scene,
            row0,
            col0 + offset,
        ),
        pan_horizontal_repaint(width, height, s, scene, row0, col0, offset) == full_repaint(
            width,
            height,
            s,
            scene,
            row0,
            col0 + offset,
        ),
{
    let w = width as int;
    let h = height as int;
    let t = shifted_cols(w, s, offset as int);
    let b = horizontal_band(width, height, offset);
    assert forall|i: int|
        0 <= i < t.len() && !band_contains(b, i / w, i % w) implies #[trigger] t[i] == scene(
            row0 + i / w,
            col0 + offset + i % w,
        ) by {
        lemma_row_col_of(w, h, i);
        let r = i / w;
        let c = i % w;
        lemma_row_in_window(w, h, r, c + offset);
        lemma_index_split(w, i + offset, r, c + offset);
    }
    lemma_repainted_shows(width, height, t, b, scene, row0, col0 + offset);
    lemma_full_repaint_shows(width, height, s, scene, row0, col0 + offset);
    lemma_shows_unique(
        width,
        height,
        pan_horizontal_repaint(width, height, s, scene, row0, col0, offset),
        full_repaint(width, height, s, scene, row0, col0 + offset),
        scene,
        row0,
        col0 + offset,
    );
}


/// The window's origin after the pans, in order, from `(row0, col0)`.
pub open spec fn origin_after(row0: int, col0: int, pans: Seq<Pan>) -> (int, int)
    decreases pans.len(),
{
    if pans.len() == 0 {
        (row0, col0)
    } else {
        let o = origin_after(row0, col0, pans.drop_last());
        match pans.last() {
            Pan::Vertical(offset) => (o.0 + offset, o.1),
            Pan::Horizontal(offset) => (o.0, o.1 + offset),
        }
    }
}

/// The field after the pans, in order, each done incrementally.
pub open spec fn pans_repaint(
    width: u32,
    height: u32,
    s: Seq<Rgb>,
    scene: Scene,
    row0: int,
    col0: int,
    pans: Seq<Pan>,
) -> Seq<Rgb>
    decreases pans.len(),
{
    if pans.len() == 0 {
        s
    } else {
        let prev = pans_repaint(width, height, s, scene, row0, col0, pans.drop_last());
        let o = origin_after(row0, col0, pans.drop_last());
        match pans.last() {
            Pan::Vertical(offset) => pan_vertical_repaint(width, height, prev, scene, o.0, o.1, offset),
            Pan::Horizontal(offset) => pan_horizontal_repaint(
                width,
                height,
                prev,
                scene,
                o.0,
                o.1,
                offset,
            ),
        }
    }
}

/// Any sequence of incremental pans, with or without a full recompute at
/// the end, gives the same field as one full recompute from the final window.
pub proof fn lemma_pans_match_full_repaint(
    width: u32,
    height: u32,
    s: Seq<Rgb>,
    scene: Scene,
    row0: int,
    col0: int,
    pans: Seq<Pan>,
)
    requires
        width > 0,
        height > 0,
        shows(width, height, s, scene, row0, col0),
    ensures
        ({
            let o = origin_after(row0, col0, pans);
            let t = pans_repaint(width, height, s, scene, row0, col0, pans);
            &&& shows(width, height, t, scene, o.0, o.1)
            &&& t == full_repaint(width, height, s, scene, o.0, o.1)
            &&& full_repaint(width, height, t, scene, o.0, o.1) == full_repaint(
                width,
                height,
                s,
                scene,
                o.0,
                o.1,
            )
        }),
    decreases pans.len(),
{
    let o = origin_after(row0, col0, pans);
    let t = pans_repaint(width, height, s, scene, row0, col0, pans);
    if pans.len() > 0 {
        let prev = pans_repaint(width, height, s, scene, row0, col0, pans.drop_last());
        let p = origin_after(row0, col0, pans.drop_last());
        lemma_pans_match_full_repaint(width, height, s, scene, row0, col0, pans.drop_last());
        match pans.last() {
            Pan::Vertical(offset) => {
                lemma_pan_vertical_matches_full_repaint(width, height, prev, scene, p.0, p.1, offset);
            },
            Pan::Horizontal(offset) => {
                lemma_pan_horizontal_matches_full_repaint(width, height, prev, scene, p.0, p.1, offset);
            },
        }
    }
    lemma_full_repaint_shows(width, height, s, scene, o.0, o.1);
    lemma_shows_unique(width, height, t, full_repaint(width, height, s, scene, o.0, o.1), scene, o.0, o.1);
    lemma_full_repaint_shows(width, height, t, scene, o.0, o.1);
    lemma_shows_unique(
        width,
        height,
        full_repaint(width, height, t, scene, o.0, o.1),
        full_repaint(width, height, s, scene, o.0, o.1),
        scene,
        o.0,
        o.1,
    );
}

/// A full recompute done twice, with the window unchanged, gives the same
/// field as done once; what it gives does not depend on the field before.
pub proof fn lemma_full_repaint_idempotent(
    width: u32,
    height: u32,
    s: Seq<Rgb>,
    other: Seq<Rgb>,
    scene: Scene,
    row0: int,
    col0: int,
)
    requires
        width > 0,
        height > 0,
        s.len() == width * height,
        other.len() == width * height,
    ensures
        full_repaint(width, height, full_repaint(width, height, s, scene, row0, col0), scene, row0, col0)
            == full_repaint(width, height, s, scene, row0, col0),
        full_repaint(width, height, other, scene, row0, col0) == full_repaint(
            width,
            height,
            s,
            scene,
            row0,
            col0,
        ),
{
    let once = full_repaint(width, height, s, scene, row0, col0);
    lemma_full_repaint_shows(width, height, s, scene, row0, col0);
    lemma_full_repaint_shows(width, height, once, scene, row0, col0);
    lemma_full_repaint_shows(width, height, other, scene, row0, col0);
    lemma_shows_unique(
        width,
        height,
        full_repaint(width, height, once, scene, row0, col0),
        once,
        scene,
        row0,
        col0,
    );
    lemma_shows_unique(
        width,
        height,
        full_repaint(width, height, other, scene, row0, col0),
        once,
        scene,
        row0,
        col0,
    );
}

/// A pan by zero moves nothing, exposes nothing, and leaves every field as it
/// was, whether or not it shows the scene.
pub proof fn lemma_zero_pan_is_identity(
    width: u32,
    height: u32,
    s: Seq<Rgb>,
    scene: Scene,
    row0: int,
    col0: int,
)
    ensures
        shifted_rows(width as int, s, 0) == s,
        shifted_cols(width as int, s, 0) == s,
        band_seq(vertical_band(width, height, 0)).len() == 0,
        band_seq(horizontal_band(width, height, 0)).len() == 0,
        pan_vertical_repaint(width, height, s, scene, row0, col0, 0) == s,
        pan_horizontal_repaint(width, height, s, scene, row0, col0, 0) == s,
{
    assert(shifted_rows(width as int, s, 0) =~= s);
    assert(shifted_cols(width as int, s, 0) =~= s);
    let vb = band_seq(vertical_band(width, height, 0));
    let hb = band_seq(horizontal_band(width, height, 0));
    assert(vb.len() == 0) by (nonlinear_arith)
        requires vb.len() == 0 * width;
    assert(hb.len() == 0) by (nonlinear_arith)
        requires hb.len() == height * 0;
}

} // verus!
