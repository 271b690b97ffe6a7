//! Where things stand on the screen.

use ratatui::layout::{Constraint, Direction, Layout, Rect};
use vstd::prelude::*;

verus! {

/// The least height of the table.
pub const TABLE_HEIGHT: u16 = 5;

/// The height of the status lines with their frame.
pub const STATUS_HEIGHT: u16 = 4;

/// A rectangle of character cells.
#[derive(Clone, Copy, Debug, PartialEq, Eq, Structural)]
pub struct Area {
    pub x: u16,
    pub y: u16,
    pub width: u16,
    pub height: u16,
}

/// The direction in which an area is split.
#[derive(Clone, Copy, Debug, PartialEq, Eq, Structural)]
pub enum Axis {
    Horizontal,
    Vertical,
}

/// How large a part of an area is to be.
#[derive(Clone, Copy, Debug, PartialEq, Eq, Structural)]
pub enum Size {
    Percentage(u16),
    Min(u16),
    Length(u16),
}

/// Where an area begins along an axis.
pub open spec fn start_of(area: Area, axis: Axis) -> int {
    match axis {
        Axis::Horizontal => area.x as int,
        Axis::Vertical => area.y as int,
    }
}

/// How far an area reaches along an axis; coordinates end at the largest `u16`.
pub open spec fn extent_of(area: Area, axis: Axis) -> int {
    let length: int = match axis {
        Axis::Horizontal => area.width as int,
        Axis::Vertical => area.height as int,
    };
    if start_of(area, axis) + length <= u16::MAX {
        length
    } else {
        u16::MAX - start_of(area, axis)
    }
}

/// The part of an area between two coordinates along an axis.
pub open spec fn part_of(area: Area, axis: Axis, from: int, to: int) -> Area {
    match axis {
        Axis::Horizontal => Area { x: from as u16, width: (to - from) as u16, ..area },
        Axis::Vertical => Area { y: from as u16, height: (to - from) as u16, ..area },
    }
}

/// The coordinate that the given percentage of an area ends at, rounded to the
/// nearest cell.
pub open spec fn mark(area: Area, axis: Axis, percent: nat) -> int {
    (100 * start_of(area, axis) + extent_of(area, axis) * percent + 50) / 100
}

/// The sum of percentages.
pub open spec fn total(sizes: Seq<Size>) -> nat
    decreases sizes.len(),
{
    if sizes.len() == 0 {
        0
    } else {
        total(sizes.drop_last()) + match sizes.last() {
            Size::Percentage(percent) => percent as nat,
            _ => 0,
        }
    }
}

/// Whether the sizes are percentages of no more than the whole.
pub open spec fn are_shares(sizes: Seq<Size>) -> bool {
    &&& forall|i: int| 0 <= i < sizes.len() ==> (#[trigger] sizes[i]) is Percentage
    &&& total(sizes) <= 100
}

/// Whether the sizes are a least size and a fixed one after it.
pub open spec fn are_body_and_foot(sizes: Seq<Size>) -> bool {
    &&& sizes.len() == 2
    &&& sizes[0] matches Size::Min(least) && least <= i16::MAX
    &&& sizes[1] is Length
}

/// How large the body of an area is: all but the foot, but first of all as much
/// of its least size as there is.
pub open spec fn body_extent(extent: int, least: int, foot: int) -> int {
    if extent >= least + foot {
        extent - foot
    } else if extent >= least {
        least
    } else {
        extent
    }
}

/// The parts of an area that is split along an axis. Percentages are all met: each
/// part reaches from the sum of the percentages before it to the sum with its
/// own. A body and a foot share the whole area.
pub open spec fn parts_of(axis: Axis, sizes: Seq<Size>, area: Area) -> Seq<Area> {
    if are_shares(sizes) {
        Seq::new(
            sizes.len(),
            |i: int|
                part_of(
                    area,
                    axis,
                    mark(area, axis, total(sizes.take(i))),
                    mark(area, axis, total(sizes.take(i + 1))),
                ),
        )
    } else {
        let start = start_of(area, axis);
        let extent = extent_of(area, axis);
        let body = body_extent(extent, sizes[0]->Min_0 as int, sizes[1]->Length_0 as int);
        seq![
            part_of(area, axis, start, start + body),
            part_of(area, axis, start + body, start + extent),
        ]
    }
}

/// `ratatui::layout::Layout::split`, of a layout with these constraints in this
/// direction and nothing else set.
///
/// Percentages that fit into the area are all met: each part reaches from the
/// sum of the percentages before it to the sum with its own, both rounded to the
/// nearest cell, halves up. Of a least size and a fixed size, the least size is
/// met first, as far as there is room, the fixed size next, and what is then
/// left goes to the first part. Across the direction nothing changes.
#[verifier::external_body]
fn split(axis: Axis, sizes: &Vec<Size>, area: Area) -> (r: Vec<Area>)
    requires
        are_shares(sizes@) || are_body_and_foot(sizes@),
    ensures
        r@ == parts_of(axis, sizes@, area),
{
    let constraints = sizes.iter().map(|size| match *size {
        Size::Percentage(n) => Constraint::Percentage(n),
        Size::Min(n) => Constraint::Min(n),
        Size::Length(n) => Constraint::Length(n),
    });
    let direction = match axis {
        Axis::Horizontal => Direction::Horizontal,
        Axis::Vertical => Direction::Vertical,
    };
    let rect = Rect { x: area.x, y: area.y, width: area.width, height: area.height };
    let parts = Layout::new(direction, constraints).split(rect);
    parts.iter().map(|p| Area { x: p.x, y: p.y, width: p.width, height: p.height }).collect()
}

/// The percentage that is left free before a centred part.
pub open spec fn margin(percent: nat) -> nat {
    ((100 - percent) / 2) as nat
}

/// The middle part of an area along an axis.
pub open spec fn middle(area: Area, axis: Axis, percent: nat) -> Area {
    part_of(
        area,
        axis,
        mark(area, axis, margin(percent)),
        mark(area, axis, margin(percent) + percent),
    )
}

/// The part of an area that has these percentages of its width and height and
/// stands in its middle.
pub open spec fn centered(percent_x: nat, percent_y: nat, area: Area) -> Area {
    middle(middle(area, Axis::Vertical, percent_y), Axis::Horizontal, percent_x)
}

fn middle_part(axis: Axis, percent: u16, area: Area) -> (r: Area)
    requires
        percent <= 100,
    ensures
        r == middle(area, axis, percent as nat),
{
    let free: u16 = (100 - percent) / 2;
    let mut sizes: Vec<Size> = Vec::new();
    sizes.push(Size::Percentage(free));
    sizes.push(Size::Percentage(percent));
    sizes.push(Size::Percentage(free));
    proof {
        let all = sizes@;
        assert(all.take(3) =~= all);
        assert(all.take(3).drop_last() =~= all.take(2));
        assert(all.take(2).drop_last() =~= all.take(1));
        assert(all.take(1).drop_last() =~= all.take(0));
        assert(total(all.take(0)) == 0);
        assert(total(all.take(1)) == free);
        assert(total(all.take(2)) == free + percent);
        assert(total(all.take(3)) == free + percent + free);
    }
    let parts = split(axis, &sizes, area);
    parts[1]
}

/// The part of an area that has these percentages of its width and height and
/// stands in its middle.
pub fn centered_rect(percent_x: u16, percent_y: u16, area: Area) -> (r: Area)
    requires
        percent_x <= 100,
        percent_y <= 100,
    ensures
        r == centered(percent_x as nat, percent_y as nat, area),
{
    let row = middle_part(Axis::Vertical, percent_y, area);
    middle_part(Axis::Horizontal, percent_x, row)
}

/// Where the table stands and where the status lines stand below it.
pub open spec fn table_and_status(area: Area) -> (Area, Area) {
    let start = start_of(area, Axis::Vertical);
    let extent = extent_of(area, Axis::Vertical);
    let body = body_extent(extent, TABLE_HEIGHT as int, STATUS_HEIGHT as int);
    (
        part_of(area, Axis::Vertical, start, start + body),
        part_of(area, Axis::Vertical, start + body, start + extent),
    )
}

/// Splits the screen into the table and the status lines below it.
pub fn screen_areas(area: Area) -> (r: (Area, Area))
    ensures
        r == table_and_status(area),
{
    let mut sizes: Vec<Size> = Vec::new();
    sizes.push(Size::Min(TABLE_HEIGHT));
    sizes.push(Size::Length(STATUS_HEIGHT));
    let parts = split(Axis::Vertical, &sizes, area);
    (parts[0], parts[1])
}

/// Whether one area lies in another along an axis.
pub open spec fn within(inner: Area, outer: Area, axis: Axis) -> bool {
    &&& start_of(outer, axis) <= start_of(inner, axis)
    &&& start_of(inner, axis) + extent_of(inner, axis) <= start_of(outer, axis) + extent_of(
        outer,
        axis,
    )
}

proof fn lemma_mark(area: Area, axis: Axis, percent: nat)
    requires
        percent <= 100,
    ensures
        start_of(area, axis) <= mark(area, axis, percent) <= start_of(area, axis) + extent_of(
            area,
            axis,
        ),
{
    let extent = extent_of(area, axis);
    assert(0 <= extent * percent <= extent * 100) by (nonlinear_arith)
        requires
            0 <= extent,
            0 <= percent <= 100,
    ;
}

proof fn lemma_middle_within(area: Area, axis: Axis, percent: nat)
    requires
        percent <= 100,
    ensures
        within(middle(area, axis, percent), area, axis),
        mark(area, axis, margin(percent)) <= mark(area, axis, margin(percent) + percent),
{
    let extent = extent_of(area, axis);
    let before: nat = margin(percent);
    lemma_mark(area, axis, before);
    lemma_mark(area, axis, before + percent);
    assert(extent * before <= extent * (before + percent)) by (nonlinear_arith)
        requires
            0 <= extent,
            0 <= percent,
            0 <= before,
    ;
}

/// A centred part lies inside its area.
pub proof fn law_centered_part_lies_inside(percent_x: nat, percent_y: nat, area: Area)
    requires
        percent_x <= 100,
        percent_y <= 100,
    ensures
        within(centered(percent_x, percent_y, area), area, Axis::Horizontal),
        within(centered(percent_x, percent_y, area), area, Axis::Vertical),
{
    lemma_middle_within(area, Axis::Vertical, percent_y);
    lemma_middle_within(middle(area, Axis::Vertical, percent_y), Axis::Horizontal, percent_x);
}

/// The table and the status lines fill the screen between them, one below the
/// other, and where there is room the status lines have their full height.
pub proof fn law_table_and_status_fill_the_screen(area: Area)
    ensures
        ({
            let (table, status) = table_and_status(area);
            &&& table.x == status.x == area.x
            &&& table.width == status.width == area.width
            &&& table.y == area.y
            &&& status.y == table.y + table.height
            &&& table.height + status.height == extent_of(area, Axis::Vertical)
            &&& extent_of(area, Axis::Vertical) >= TABLE_HEIGHT + STATUS_HEIGHT ==> status.height
                == STATUS_HEIGHT
        }),
{
}

/// How many cells there are from `start`, of `length` that are asked for;
/// coordinates end at 65535.
pub open spec fn room(start: u16, length: u16) -> int {
    if start + length <= 65535 {
        length as int
    } else {
        65535 - start
    }
}

/// The edges of a centred part: each is the cell nearest to its share of the area,
/// halves up. Before the part stands half of what it leaves free.
pub proof fn law_centered_part_takes_its_share(percent_x: nat, percent_y: nat, area: Area)
    requires
        percent_x <= 100,
        percent_y <= 100,
    ensures
        ({
            let width = room(area.x, area.width);
            let height = room(area.y, area.height);
            let inner = centered(percent_x, percent_y, area);
            let free_x = (100 - percent_x) / 2;
            let free_y = (100 - percent_y) / 2;
            let left = inner.x - area.x;
            let top = inner.y - area.y;
            let right = left + inner.width;
            let bottom = top + inner.height;
            &&& 100 * left <= width * free_x + 50 < 100 * left + 100
            &&& 100 * right <= width * (free_x + percent_x) + 50 < 100 * right + 100
            &&& 100 * top <= height * free_y + 50 < 100 * top + 100
            &&& 100 * bottom <= height * (free_y + percent_y) + 50 < 100 * bottom + 100
        }),
{
    lemma_middle_within(area, Axis::Vertical, percent_y);
    lemma_mark(area, Axis::Vertical, margin(percent_y));
    lemma_mark(area, Axis::Vertical, margin(percent_y) + percent_y);
    let row = middle(area, Axis::Vertical, percent_y);
    lemma_middle_within(row, Axis::Horizontal, percent_x);
    lemma_mark(row, Axis::Horizontal, margin(percent_x));
    lemma_mark(row, Axis::Horizontal, margin(percent_x) + percent_x);
}

/// On a small screen the table has its least height first, and the status lines
/// have what is left.
pub proof fn law_small_screens_show_the_table(area: Area)
    ensures
        ({
            let height = room(area.y, area.height);
            let (table, status) = table_and_status(area);
            &&& table.y == area.y && status.y == area.y + table.height
            &&& table.height + status.height == height
            &&& height >= 9 ==> status.height == 4
            &&& 5 <= height < 9 ==> table.height == 5
            &&& height < 5 ==> status.height == 0
            &&& table.x == area.x && table.width == area.width
            &&& status.x == area.x && status.width == area.width
        }),
{
}

} // verus!
