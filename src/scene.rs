use vstd::prelude::*;

use crate::camera::pixel_direction;
use crate::config::{settings_error, ConfigError, RenderSettings};
use crate::kernel::{grid, is_rect, ImageFilter, Kernel};

verus! {

/// `grids` are the images met while `filters` are applied in order, each
/// to the output of the one before: `grids[0]` is the input and
/// `grids[i + 1]` what `filters[i]` makes of `grids[i]`.
pub open spec fn is_filter_chain<T, F: Fn(T, T, i16, i128) -> T>(
    filters: Seq<Kernel>,
    zero: T,
    term: F,
    grids: Seq<Seq<Seq<T>>>,
) -> bool {
    &&& grids.len() == filters.len() + 1
    &&& forall|i: int|
        0 < i <= filters.len() ==> filters[i - 1].filtered(grids[i - 1], zero, term, #[trigger] grids[i])
}

/// `out` is `g` after every filter of `filters`, in order.
pub open spec fn filters_to<T, F: Fn(T, T, i16, i128) -> T>(
    filters: Seq<Kernel>,
    g: Seq<Seq<T>>,
    zero: T,
    term: F,
    out: Seq<Seq<T>>,
) -> bool {
    exists|grids: Seq<Seq<Seq<T>>>|
        #[trigger] is_filter_chain(filters, zero, term, grids) && grids[0] == g && grids.last()
            == out
}

proof fn lemma_filtered_is_rect<T, F: Fn(T, T, i16, i128) -> T>(
    k: Kernel,
    g: Seq<Seq<T>>,
    zero: T,
    term: F,
    out: Seq<Seq<T>>,
)
    requires
        is_rect(g),
        k.filtered(g, zero, term, out),
    ensures
        is_rect(out),
{
    assert forall|y: int| 0 <= y < out.len() implies #[trigger] out[y].len() == out[0].len() by {
        assert(out[y].len() == g[y].len());
        assert(out[0].len() == g[0].len());
    }
}

/// What is rendered: the image settings, the colour of rays that run out of
/// bounces, the entities in the order they were added and the filters in the
/// order they are applied.
#[derive(Clone)]
pub struct Scene<E, C> {
    settings: RenderSettings,
    background: C,
    entities: Vec<E>,
    filters: Vec<Kernel>,
}

impl<E: Copy, C: Copy> Scene<E, C> {
    /// The image settings.
    pub closed spec fn settings_view(&self) -> RenderSettings {
        self.settings
    }

    /// The colour of rays that run out of bounces.
    pub closed spec fn background_view(&self) -> C {
        self.background
    }

    /// The entities, in the order they were added.
    pub closed spec fn entities_view(&self) -> Seq<E> {
        self.entities@
    }

    /// The filters, in the order they are applied.
    pub closed spec fn filters_view(&self) -> Seq<Kernel> {
        self.filters@
    }

    /// The image has pixels, a pass is asked for and every filter is a
    /// well-formed kernel.
    pub open spec fn wf(&self) -> bool {
        &&& self.settings_view().width > 0
        &&& self.settings_view().height > 0
        &&& self.settings_view().samples > 0
        &&& forall|i: int| 0 <= i < self.filters_view().len() ==> #[trigger] self.filters_view()[i].wf()
    }

    /// A scene with no entity and no filter, refused as
    /// [`RenderSettings::new`] refuses its settings.
    pub fn new(
        width: u32,
        height: u32,
        focal_length: u32,
        samples: u32,
        bounces: u32,
        background: C,
    ) -> (r: Result<Scene<E, C>, ConfigError>)
        ensures
            r is Ok <==> width > 0 && height > 0 && samples > 0,
            r matches Err(e) ==> settings_error(width, height, samples) == Some(e),
            r matches Ok(s) ==> {
                &&& s.wf()
                &&& s.settings_view() == (RenderSettings {
                    width,
                    height,
                    focal_length,
                    samples,
                    bounces,
                })
                &&& s.background_view() == background
                &&& s.entities_view().len() == 0
                &&& s.filters_view().len() == 0
            },
    {
        match RenderSettings::new(width, height, focal_length, samples, bounces) {
            Ok(settings) => Ok(Scene { settings, background, entities: Vec::new(), filters: Vec::new() }),
            Err(e) => Err(e),
        }
    }

    /// Appends an entity.
    pub fn add_entity(&mut self, entity: E)
        ensures
            final(self).entities_view() == old(self).entities_view().push(entity),
            final(self).filters_view() == old(self).filters_view(),
            final(self).settings_view() == old(self).settings_view(),
            final(self).background_view() == old(self).background_view(),
    {
        self.entities.push(entity);
    }

    /// Appends a filter, applied after those already there.
    pub fn add_filter(&mut self, filter: ImageFilter)
        requires
            old(self).wf(),
            filter.kernel_view().wf(),
        ensures
            final(self).wf(),
            final(self).filters_view() == old(self).filters_view().push(filter.kernel_view()),
            final(self).entities_view() == old(self).entities_view(),
            final(self).settings_view() == old(self).settings_view(),
            final(self).background_view() == old(self).background_view(),
    {
        self.filters.push(filter.into_kernel());
        assert(forall|i: int|
            0 <= i < old(self).filters_view().len() ==> #[trigger] self.filters@[i] == old(
                self,
            ).filters_view()[i]);
    }

    /// The image settings.
    pub fn settings(&self) -> (r: RenderSettings)
        ensures
            r == self.settings_view(),
    {
        self.settings
    }

    /// The colour of rays that run out of bounces.
    pub fn background(&self) -> (r: C)
        ensures
            r == self.background_view(),
    {
        self.background
    }

    /// The entities, in the order they were added.
    pub fn entities(&self) -> (r: &Vec<E>)
        ensures
            r@ == self.entities_view(),
    {
        &self.entities
    }

    /// One sample of every pixel, rows top to bottom: `sample` is handed the
    /// direction of the pixel's camera ray (see [`pixel_direction`]) before it
    /// is scaled to unit length.
    pub fn trace_pass<F: Fn(i64, i64, i64) -> C>(&self, sample: F) -> (r: Vec<Vec<C>>)
        requires
            forall|x: i64, y: i64, z: i64| sample.requires((x, y, z)),
        ensures
            grid(&r).len() == self.settings_view().height,
            forall|j: int|
                0 <= j < self.settings_view().height ==> #[trigger] grid(&r)[j].len()
                    == self.settings_view().width,
            forall|j: int, i: int|
                0 <= j < self.settings_view().height && 0 <= i < self.settings_view().width
                    ==> sample.ensures(
                    (
                        (i - self.settings_view().width / 2) as i64,
                        (j - self.settings_view().height / 2) as i64,
                        self.settings_view().focal_length as i64,
                    ),
                    #[trigger] grid(&r)[j][i],
                ),
    {
        let s = self.settings;
        let mut rows: Vec<Vec<C>> = Vec::new();
        let mut j: u32 = 0;
        while j < s.height
            invariant
                s == self.settings_view(),
                forall|x: i64, y: i64, z: i64| sample.requires((x, y, z)),
                j <= s.height,
                rows@.len() == j,
                forall|jj: int| 0 <= jj < j ==> #[trigger] rows@[jj]@.len() == s.width,
                forall|jj: int, i: int|
                    0 <= jj < j && 0 <= i < s.width ==> sample.ensures(
                        ((i - s.width / 2) as i64, (jj - s.height / 2) as i64, s.focal_length as i64),
                        #[trigger] rows@[jj]@[i],
                    ),
            decreases s.height - j,
        {
            let mut row: Vec<C> = Vec::new();
            let mut i: u32 = 0;
            while i < s.width
                invariant
                    s == self.settings_view(),
                    forall|x: i64, y: i64, z: i64| sample.requires((x, y, z)),
                    j < s.height,
                    i <= s.width,
                    row@.len() == i,
                    forall|ii: int|
                        0 <= ii < i ==> sample.ensures(
                            ((ii - s.width / 2) as i64, (j - s.height / 2) as i64, s.focal_length as i64),
                            #[trigger] row@[ii],
                        ),
                decreases s.width - i,
            {
                let (x, y, z) = pixel_direction(i, j, s.width, s.height, s.focal_length);
                row.push(sample(x, y, z));
                i = i + 1;
            }
            rows.push(row);
            j = j + 1;
        }
        proof {
            assert forall|jj: int| 0 <= jj < s.height implies #[trigger] grid(&rows)[jj] == rows@[jj]@ by {}
        }
        rows
    }

    /// Applies every filter to `pixels`, in order, each to the output of the
    /// one before (see [`Kernel::apply`]).
    pub fn post_process<F: Fn(C, C, i16, i128) -> C>(
        &self,
        pixels: Vec<Vec<C>>,
        zero: C,
        term: F,
    ) -> (r: Vec<Vec<C>>)
        requires
            self.wf(),
            is_rect(grid(&pixels)),
            forall|acc: C, p: C, w: i16, d: i128| term.requires((acc, p, w, d)),
        ensures
            filters_to(self.filters_view(), grid(&pixels), zero, term, grid(&r)),
            self.filters_view().len() == 0 ==> r == pixels,
    {
        let ghost mut grids: Seq<Seq<Seq<C>>> = seq![grid(&pixels)];
        let ghost fs = self.filters_view();
        let ghost input = pixels;
        let mut current = pixels;
        let mut i: usize = 0;
        while i < self.filters.len()
            invariant
                self.wf(),
                fs == self.filters_view(),
                forall|acc: C, p: C, w: i16, d: i128| term.requires((acc, p, w, d)),
                i <= fs.len(),
                is_rect(grid(&current)),
                grids.len() == i + 1,
                grids[0] == grid(&input),
                grids.last() == grid(&current),
                i == 0 ==> current == input,
                forall|k: int|
                    0 < k <= i ==> fs[k - 1].filtered(grids[k - 1], zero, term, #[trigger] grids[k]),
            decreases fs.len() - i,
        {
            let k = &self.filters[i];
            assert(fs[i as int].wf());
            let next = k.apply(&current, zero, &term);
            proof {
                lemma_filtered_is_rect(*k, grid(&current), zero, term, grid(&next));
                grids = grids.push(grid(&next));
            }
            current = next;
            i = i + 1;
        }
        proof {
            assert(is_filter_chain(fs, zero, term, grids));
        }
        current
    }
}

} // verus!
