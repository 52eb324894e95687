//! An image taken in row by row.
use vstd::prelude::*;
use crate::analyzer::SweepError;
use crate::borders::border_scan;
use crate::region::{coords, is_image, row_views, LineRegion, Point};
use crate::scanline::{extract_regions, is_regions_of};
use crate::sweep::{all_events, all_supported, find_critical_points, framed, has_interior};

verus! {

/// The rows of an image of a fixed width, from the top down to the last row
/// that was handed in. Rows are added, never changed or taken away.
pub struct Workspace {
    w: usize,
    rows: Vec<Vec<LineRegion>>,
}

impl Workspace {
    /// The image is at least one pixel wide, and each row is a row over all
    /// of its pixels.
    #[verifier::type_invariant]
    spec fn well_formed(self) -> bool {
        self.w >= 1 && is_image(row_views(self.rows@), self.w as int)
    }

    /// The width of the image in pixels.
    pub closed spec fn spec_width(self) -> int {
        self.w as int
    }

    /// The regions of the rows taken in so far, top row first.
    pub closed spec fn spec_rows(self) -> Seq<Seq<LineRegion>> {
        row_views(self.rows@)
    }

    /// An image of `w` pixels a row with no row yet.
    pub fn new(w: usize) -> (ws: Workspace)
        requires
            w >= 1,
        ensures
            ws.spec_width() == w,
            ws.spec_rows() == Seq::<Seq<LineRegion>>::empty(),
    {
        let ws = Workspace { w, rows: Vec::new() };
        assert(ws.spec_rows() =~= Seq::<Seq<LineRegion>>::empty());
        ws
    }

    /// The width of the image in pixels.
    pub fn width(&self) -> (w: usize)
        ensures
            w == self.spec_width(),
            w >= 1,
    {
        proof {
            use_type_invariant(self);
        }
        self.w
    }

    /// The number of rows taken in so far.
    pub fn height(&self) -> (h: usize)
        ensures
            h == self.spec_rows().len(),
    {
        self.rows.len()
    }

    /// The regions of row `y`.
    pub fn row(&self, y: usize) -> (regions: &Vec<LineRegion>)
        requires
            y < self.spec_rows().len(),
        ensures
            regions@ == self.spec_rows()[y as int],
    {
        &self.rows[y]
    }

    /// Takes in the next row of the image: `line` holds the red, green and
    /// blue samples of its pixels, and its regions are put below the rows
    /// that are there.
    pub fn push_scanline(&mut self, line: &Vec<u8>)
        requires
            3 * old(self).spec_width() <= line.len(),
        ensures
            final(self).spec_width() == old(self).spec_width(),
            final(self).spec_rows().len() == old(self).spec_rows().len() + 1,
            final(self).spec_rows().drop_last() == old(self).spec_rows(),
            is_regions_of(final(self).spec_rows().last(), line@, old(self).spec_width()),
    {
        proof {
            use_type_invariant(&*self);
        }
        let regions: Vec<LineRegion> = extract_regions(line, self.w);
        let ghost before = row_views(self.rows@);
        // The rows are moved out, extended and put back, so that the
        // workspace is whole at every step.
        let mut taken = Workspace { w: self.w, rows: Vec::new() };
        core::mem::swap(self, &mut taken);
        let Workspace { w, rows } = taken;
        let mut rows = rows;
        rows.push(regions);
        proof {
            let after = row_views(rows@);
            assert(after =~= before.push(regions@));
            assert(after.drop_last() =~= before);
            assert forall|y: int| 0 <= y < after.len() implies crate::region::is_row(
                #[trigger] after[y],
                0,
                self.w as int,
            ) by {
                if y < before.len() {
                    assert(after[y] == before[y]);
                }
            }
        }
        *self = Workspace { w, rows };
    }

    /// Finds the critical points of the rows taken in so far.
    pub fn critical_points(&self) -> (r: Result<Vec<Point>, SweepError>)
        ensures
            match r {
                Ok(points) => {
                    &&& has_interior(self.spec_rows(), self.spec_width())
                    &&& all_supported(framed(self.spec_rows(), self.spec_width()))
                    &&& coords(points@) == all_events(
                        framed(self.spec_rows(), self.spec_width()),
                        border_scan(self.spec_rows(), self.spec_width()).top,
                    )
                },
                Err(SweepError::EmptyInterior) => !has_interior(
                    self.spec_rows(),
                    self.spec_width(),
                ),
                Err(SweepError::UnsupportedTopology) => {
                    &&& has_interior(self.spec_rows(), self.spec_width())
                    &&& !all_supported(framed(self.spec_rows(), self.spec_width()))
                },
            },
    {
        proof {
            use_type_invariant(self);
        }
        find_critical_points(&self.rows, self.w, self.rows.len())
    }
}

} // verus!
